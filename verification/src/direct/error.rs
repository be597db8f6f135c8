//! Why guest code could not be compiled or run.

use vstd::prelude::*;
use vstd::string::StringExecFns;

verus! {

#[derive(Clone, Copy, Debug, PartialEq, Eq, Structural)]
pub enum DirectJitErrorKind {
    InvalidGuestCode,
    Unsupported,
    Capacity,
    Shutdown,
    Internal,
}

#[derive(Debug, PartialEq, Eq)]
pub struct DirectJitError {
    pub kind: DirectJitErrorKind,
    pub detail: String,
}

/// How a failure is reported to the owner of the guest processor.
#[derive(Clone, Copy, Debug, PartialEq, Eq, Structural)]
pub enum CpuFaultKind {
    InvalidRequest,
    Unavailable,
    Internal,
}

#[derive(Debug, PartialEq, Eq)]
pub struct CpuFault {
    pub backend: &'static str,
    pub kind: CpuFaultKind,
    pub progress: u64,
    pub message: String,
}

pub open spec fn fault_kind(kind: DirectJitErrorKind) -> CpuFaultKind {
    match kind {
        DirectJitErrorKind::InvalidGuestCode => CpuFaultKind::InvalidRequest,
        DirectJitErrorKind::Unsupported => CpuFaultKind::Unavailable,
        DirectJitErrorKind::Capacity => CpuFaultKind::Unavailable,
        DirectJitErrorKind::Shutdown => CpuFaultKind::Unavailable,
        DirectJitErrorKind::Internal => CpuFaultKind::Internal,
    }
}

impl DirectJitError {
    /// This kind of error, with this text.
    pub open spec fn is(self, kind: DirectJitErrorKind, text: Seq<char>) -> bool {
        self.kind == kind && self.detail@ == text
    }

    pub fn invalid(detail: &str) -> (r: DirectJitError)
        ensures
            r.is(DirectJitErrorKind::InvalidGuestCode, detail@),
    {
        DirectJitError {
            kind: DirectJitErrorKind::InvalidGuestCode,
            detail: String::from_str(detail),
        }
    }

    pub fn unsupported(detail: &str) -> (r: DirectJitError)
        ensures
            r.is(DirectJitErrorKind::Unsupported, detail@),
    {
        DirectJitError {
            kind: DirectJitErrorKind::Unsupported,
            detail: String::from_str(detail),
        }
    }

    pub fn capacity(detail: &str) -> (r: DirectJitError)
        ensures
            r.is(DirectJitErrorKind::Capacity, detail@),
    {
        DirectJitError { kind: DirectJitErrorKind::Capacity, detail: String::from_str(detail) }
    }

    pub fn internal(detail: &str) -> (r: DirectJitError)
        ensures
            r.is(DirectJitErrorKind::Internal, detail@),
    {
        DirectJitError { kind: DirectJitErrorKind::Internal, detail: String::from_str(detail) }
    }

    pub fn shutdown() -> (r: DirectJitError)
        ensures
            r.is(DirectJitErrorKind::Shutdown, "direct JIT process is shut down"@),
    {
        DirectJitError {
            kind: DirectJitErrorKind::Shutdown,
            detail: String::from_str("direct JIT process is shut down"),
        }
    }

    pub fn message(&self) -> (r: String)
        ensures
            r@ == self.detail@,
    {
        String::from_str(self.detail.as_str())
    }

    /// A copy for a second reader of a failure that sticks.
    pub fn duplicate(&self) -> (r: DirectJitError)
        ensures
            r.is(self.kind, self.detail@),
    {
        DirectJitError { kind: self.kind, detail: String::from_str(self.detail.as_str()) }
    }

    /// The report of a failure after `progress` steps.
    pub fn into_fault(self, progress: u64) -> (r: CpuFault)
        ensures
            r.backend@ == "jit"@,
            r.kind == fault_kind(self.kind),
            r.progress == progress,
            r.message == self.detail,
    {
        let kind = match self.kind {
            DirectJitErrorKind::InvalidGuestCode => CpuFaultKind::InvalidRequest,
            DirectJitErrorKind::Unsupported => CpuFaultKind::Unavailable,
            DirectJitErrorKind::Capacity => CpuFaultKind::Unavailable,
            DirectJitErrorKind::Shutdown => CpuFaultKind::Unavailable,
            DirectJitErrorKind::Internal => CpuFaultKind::Internal,
        };
        CpuFault { backend: "jit", kind, progress, message: self.detail }
    }
}

} // verus!
