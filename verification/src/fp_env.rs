//! Ownership of the host floating-point environment.
//!
//! One owner per invocation saves the caller's environment once, lends the host
//! to guest segments, and restores it. The application reads and writes the host
//! registers that these functions ask for.

use vstd::prelude::*;
use crate::abi::HostAbi;
use crate::fp_policy::{native_fpcr_supported, NATIVE_FPCR_MASK};

verus! {

/// The control needs exact semantics.
#[derive(Clone, Copy, Debug, PartialEq, Eq, Structural)]
pub struct UnsupportedFpControl(pub u32);

/// Flags are nonzero when set; native code tests them.
#[derive(Clone, Copy, Debug, PartialEq, Eq, Structural)]
pub struct HostFpState {
    pub saved_control: u64,
    pub saved_status: u64,
    pub active: u32,
    pub saved: u32,
    pub suspended: u32,
}

impl Default for HostFpState {
    fn default() -> (r: HostFpState)
        ensures
            r == (HostFpState {
                saved_control: 0,
                saved_status: 0,
                active: 0,
                saved: 0,
                suspended: 0,
            }),
    {
        HostFpState { saved_control: 0, saved_status: 0, active: 0, saved: 0, suspended: 0 }
    }
}

/// What a suspension asks of the host: the status to merge into the guest, and
/// the control and status to restore.
#[derive(Clone, Copy, Debug, PartialEq, Eq)]
pub struct Suspension {
    pub status: u32,
    pub restore: Option<(u64, u64)>,
}

impl HostFpState {
    /// A segment is active only within an invocation.
    pub open spec fn wf(self) -> bool {
        self.active != 0 ==> self.saved != 0
    }

    /// Keeps the caller's environment, before any guest segment.
    pub fn begin(&mut self, control: u64, status: u64)
        requires
            old(self).active == 0,
            old(self).saved == 0,
        ensures
            *final(self) == (HostFpState {
                saved_control: control,
                saved_status: status,
                active: 0,
                saved: 1,
                suspended: 0,
            }),
    {
        self.saved_control = control;
        self.saved_status = status;
        self.saved = 1;
        self.suspended = 0;
    }

    /// Activates native floating point. `Ok(true)` asks for the guest environment
    /// to be installed; a segment that is already active keeps its accumulated
    /// status.
    pub fn ensure(&mut self, fpcr: u32) -> (r: Result<bool, UnsupportedFpControl>)
        requires
            old(self).saved != 0,
        ensures
            match r {
                Err(error) => {
                    &&& fpcr & !NATIVE_FPCR_MASK != 0
                    &&& error.0 == fpcr
                    &&& *final(self) == *old(self)
                },
                Ok(install) => {
                    &&& fpcr & !NATIVE_FPCR_MASK == 0
                    &&& install == (old(self).active == 0)
                    &&& *final(self) == if install {
                        HostFpState { active: 1, suspended: 0, ..*old(self) }
                    } else {
                        *old(self)
                    }
                },
            },
    {
        if !native_fpcr_supported(fpcr) {
            return Err(UnsupportedFpControl(fpcr));
        }
        if self.active != 0 {
            return Ok(false);
        }
        self.active = 1;
        self.suspended = 0;
        Ok(true)
    }

    /// Hands the host back to the caller before a helper. `guest_status` is the
    /// status that the active segment has accumulated.
    pub fn suspend(&mut self, guest_status: u32) -> (r: Suspension)
        ensures
            if old(self).active == 0 {
                *final(self) == *old(self) && r == (Suspension { status: 0, restore: None })
            } else {
                &&& *final(self) == (HostFpState { active: 0, suspended: 1, ..*old(self) })
                &&& r == (Suspension {
                    status: guest_status,
                    restore: Some((old(self).saved_control, old(self).saved_status)),
                })
            },
    {
        if self.active == 0 {
            return Suspension { status: 0, restore: None };
        }
        self.active = 0;
        self.suspended = 1;
        Suspension {
            status: guest_status,
            restore: Some((self.saved_control, self.saved_status)),
        }
    }

    /// Resumes only a suspended segment.
    pub fn resume(&mut self, fpcr: u32) -> (r: Result<bool, UnsupportedFpControl>)
        requires
            old(self).suspended != 0 ==> old(self).saved != 0,
        ensures
            old(self).suspended == 0 ==> r == Ok::<bool, UnsupportedFpControl>(false)
                && *final(self) == *old(self),
            old(self).suspended != 0 ==> match r {
                Err(error) => {
                    &&& fpcr & !NATIVE_FPCR_MASK != 0
                    &&& error.0 == fpcr
                    &&& *final(self) == *old(self)
                },
                Ok(install) => {
                    &&& fpcr & !NATIVE_FPCR_MASK == 0
                    &&& install == (old(self).active == 0)
                    &&& *final(self) == if install {
                        HostFpState { active: 1, suspended: 0, ..*old(self) }
                    } else {
                        *old(self)
                    }
                },
            },
    {
        if self.suspended == 0 {
            return Ok(false);
        }
        self.ensure(fpcr)
    }

    /// Ends a segment for good, before its controls are replaced.
    pub fn end(&mut self, guest_status: u32) -> (r: Suspension)
        ensures
            *final(self) == (HostFpState { active: 0, suspended: 0, ..*old(self) }),
            r == if old(self).active == 0 {
                Suspension { status: 0, restore: None }
            } else {
                Suspension {
                    status: guest_status,
                    restore: Some((old(self).saved_control, old(self).saved_status)),
                }
            },
    {
        let suspension = self.suspend(guest_status);
        self.suspended = 0;
        suspension
    }

    /// Ends the invocation. The caller's environment is restored even where no
    /// segment is active.
    pub fn finish(&mut self, guest_status: u32) -> (r: Suspension)
        ensures
            *final(self) == (HostFpState { active: 0, saved: 0, suspended: 0, ..*old(self) }),
            r.status == if old(self).active == 0 {
                0
            } else {
                guest_status
            },
            r.restore == if old(self).active != 0 || old(self).saved != 0 {
                Some((old(self).saved_control, old(self).saved_status))
            } else {
                None
            },
    {
        let was_active = self.active != 0;
        let mut suspension = self.suspend(guest_status);
        if !was_active && self.saved != 0 {
            suspension.restore = Some((self.saved_control, self.saved_status));
        }
        self.saved = 0;
        self.suspended = 0;
        suspension
    }
}

/// The floating-point part of an invocation: the owner and the guest's registers.
#[derive(Clone, Copy, Debug, PartialEq, Eq, Structural)]
pub struct GuestFp {
    pub host: HostFpState,
    pub fpcr: u32,
    pub fpsr: u32,
}

impl GuestFp {
    /// The state after an activation that installs the guest's environment, or
    /// finds it installed.
    pub open spec fn activated(self, install: bool) -> GuestFp {
        if install {
            GuestFp { host: HostFpState { active: 1, suspended: 0, ..self.host }, ..self }
        } else {
            self
        }
    }

    pub fn begin_fp(&mut self, control: u64, status: u64)
        requires
            old(self).host.active == 0,
            old(self).host.saved == 0,
        ensures
            *final(self) == (GuestFp {
                host: HostFpState {
                    saved_control: control,
                    saved_status: status,
                    active: 0,
                    saved: 1,
                    suspended: 0,
                },
                ..*old(self)
            }),
    {
        self.host.begin(control, status);
    }

    pub fn ensure_fp(&mut self) -> (r: Result<bool, UnsupportedFpControl>)
        requires
            old(self).host.saved != 0,
        ensures
            match r {
                Ok(install) => {
                    &&& old(self).fpcr & !NATIVE_FPCR_MASK == 0
                    &&& install == (old(self).host.active == 0)
                    &&& *final(self) == old(self).activated(install)
                },
                Err(error) => {
                    &&& old(self).fpcr & !NATIVE_FPCR_MASK != 0
                    &&& error.0 == old(self).fpcr
                    &&& *final(self) == *old(self)
                },
            },
    {
        let fpcr: u32 = self.fpcr;
        self.host.ensure(fpcr)
    }

    /// Merges the segment's status before a helper runs.
    pub fn suspend_fp(&mut self, guest_status: u32) -> (r: Option<(u64, u64)>)
        ensures
            final(self).fpsr == old(self).fpsr | if old(self).host.active == 0 {
                0
            } else {
                guest_status
            },
            final(self).fpcr == old(self).fpcr,
            final(self).host == if old(self).host.active == 0 {
                old(self).host
            } else {
                HostFpState { active: 0, suspended: 1, ..old(self).host }
            },
            r == if old(self).host.active == 0 {
                None
            } else {
                Some((old(self).host.saved_control, old(self).host.saved_status))
            },
    {
        let suspension = self.host.suspend(guest_status);
        self.fpsr = self.fpsr | suspension.status;
        suspension.restore
    }

    pub fn resume_fp(&mut self) -> (r: Result<bool, UnsupportedFpControl>)
        requires
            old(self).host.suspended != 0 ==> old(self).host.saved != 0,
        ensures
            match r {
                Ok(install) => {
                    &&& old(self).host.suspended != 0 ==> old(self).fpcr & !NATIVE_FPCR_MASK == 0
                    &&& install == (old(self).host.suspended != 0 && old(self).host.active == 0)
                    &&& *final(self) == old(self).activated(install)
                },
                Err(error) => {
                    &&& old(self).host.suspended != 0
                    &&& old(self).fpcr & !NATIVE_FPCR_MASK != 0
                    &&& error.0 == old(self).fpcr
                    &&& *final(self) == *old(self)
                },
            },
    {
        let fpcr: u32 = self.fpcr;
        self.host.resume(fpcr)
    }

    /// Ends the segment before an FPCR or FPSR replacement.
    pub fn end_fp(&mut self, guest_status: u32) -> (r: Option<(u64, u64)>)
        ensures
            final(self).fpsr == old(self).fpsr | if old(self).host.active == 0 {
                0
            } else {
                guest_status
            },
            final(self).fpcr == old(self).fpcr,
            final(self).host == (HostFpState { active: 0, suspended: 0, ..old(self).host }),
            r == if old(self).host.active == 0 {
                None
            } else {
                Some((old(self).host.saved_control, old(self).host.saved_status))
            },
    {
        let suspension = self.host.end(guest_status);
        self.fpsr = self.fpsr | suspension.status;
        suspension.restore
    }

    /// Completes the guest's status and restores the caller.
    pub fn finish_fp(&mut self, guest_status: u32) -> (r: Option<(u64, u64)>)
        ensures
            final(self).fpsr == old(self).fpsr | if old(self).host.active == 0 {
                0
            } else {
                guest_status
            },
            final(self).fpcr == old(self).fpcr,
            final(self).host == (HostFpState {
                active: 0,
                saved: 0,
                suspended: 0,
                ..old(self).host
            }),
            r == if old(self).host.active != 0 || old(self).host.saved != 0 {
                Some((old(self).host.saved_control, old(self).host.saved_status))
            } else {
                None
            },
    {
        let suspension = self.host.finish(guest_status);
        self.fpsr = self.fpsr | suspension.status;
        suspension.restore
    }
}

/// Merging status never clears a sticky bit.
pub proof fn law_status_is_sticky(fpsr: u32, status: u32)
    ensures
        (fpsr | status) & fpsr == fpsr,
        (fpsr | status) & status == status,
{
    assert((fpsr | status) & fpsr == fpsr) by (bit_vector);
    assert((fpsr | status) & status == status) by (bit_vector);
}

/// MXCSR without its status bits, and its status bits.
pub fn split_mxcsr(mxcsr: u32) -> (r: (u64, u64))
    ensures
        r.0 | r.1 == mxcsr,
        r.1 == mxcsr & 0x3f,
        r.0 & 0x3f == 0,
{
    let control: u32 = mxcsr & !0x3f;
    let status: u32 = mxcsr & 0x3f;
    proof {
        assert((mxcsr & !0x3f) | (mxcsr & 0x3f) == mxcsr) by (bit_vector);
        assert((mxcsr & !0x3f) & 0x3f == 0) by (bit_vector);
    }
    (control as u64, status as u64)
}

/// The x86-64 rounding control of an Arm rounding mode: up and down are swapped.
pub open spec fn host_rounding(arm: u32) -> u32 {
    if arm == 1 {
        2
    } else if arm == 2 {
        1
    } else {
        arm
    }
}

/// MXCSR for guest arithmetic: the guest's rounding and flushing, every exception
/// masked, no status.
pub fn guest_mxcsr(current: u32, fpcr: u32) -> (r: u32)
    ensures
        r & 0x3f == 0,
        r & 0x1f80 == 0x1f80,
        (r >> 13) & 3 == host_rounding((fpcr >> 22) & 3),
        (r & 0x40 != 0) == ((fpcr >> 24) & 1 == 1),
        (r & 0x8000 != 0) == ((fpcr >> 24) & 1 == 1),
        r & 0xffff_0000 == current & 0xffff_0000,
{
    let arm: u32 = (fpcr >> 22) & 3;
    proof {
        assert((fpcr >> 22) & 3 <= 3) by (bit_vector);
    }
    let rounding: u32 = match arm {
        1 => 2,
        2 => 1,
        other => other,
    };
    let flush: u32 = if fpcr & 0x0100_0000 != 0 {
        0x8040
    } else {
        0
    };
    let r: u32 = (current & !0xe07f) | 0x1f80 | (rounding << 13) | flush;
    proof {
        assert((fpcr & 0x0100_0000 != 0) == ((fpcr >> 24) & 1 == 1)) by (bit_vector);
        assert(rounding <= 3 && (flush == 0 || flush == 0x8040) ==> {
            let r = (current & !0xe07f) | 0x1f80 | (rounding << 13) | flush;
            &&& r & 0x3f == 0
            &&& r & 0x1f80 == 0x1f80
            &&& (r >> 13) & 3 == rounding
            &&& (r & 0x40 != 0) == (flush != 0)
            &&& (r & 0x8000 != 0) == (flush != 0)
            &&& r & 0xffff_0000 == current & 0xffff_0000
        }) by (bit_vector);
    }
    r
}

/// The Arm status bits of an MXCSR: invalid, division by zero, overflow,
/// underflow, inexact and denormal input.
pub fn mxcsr_guest_status(mxcsr: u32) -> (r: u32)
    ensures
        r & 1 == mxcsr & 1,
        (r >> 1) & 1 == (mxcsr >> 2) & 1,
        (r >> 2) & 1 == (mxcsr >> 3) & 1,
        (r >> 3) & 1 == (mxcsr >> 4) & 1,
        (r >> 4) & 1 == (mxcsr >> 5) & 1,
        (r >> 7) & 1 == (mxcsr >> 1) & 1,
        r & !0x9f == 0,
{
    let r: u32 = (mxcsr & 1) | ((mxcsr & 4) >> 1) | ((mxcsr & 8) >> 1) | ((mxcsr & 16) >> 1) | ((
    mxcsr & 32) >> 1) | ((mxcsr & 2) << 6);
    proof {
        assert({
            let r = (mxcsr & 1) | ((mxcsr & 4) >> 1) | ((mxcsr & 8) >> 1) | ((mxcsr & 16) >> 1) | ((
            mxcsr & 32) >> 1) | ((mxcsr & 2) << 6);
            &&& r & 1 == mxcsr & 1
            &&& (r >> 1) & 1 == (mxcsr >> 2) & 1
            &&& (r >> 2) & 1 == (mxcsr >> 3) & 1
            &&& (r >> 3) & 1 == (mxcsr >> 4) & 1
            &&& (r >> 4) & 1 == (mxcsr >> 5) & 1
            &&& (r >> 7) & 1 == (mxcsr >> 1) & 1
            &&& r & !0x9f == 0
        }) by (bit_vector);
    }
    r
}

/// FPCR for guest arithmetic on an AArch64 host.
pub fn guest_fpcr(fpcr: u32) -> (r: u64)
    ensures
        r == fpcr & NATIVE_FPCR_MASK,
{
    (fpcr & NATIVE_FPCR_MASK) as u64
}

/// The guest's status bits of an AArch64 host's FPSR.
pub fn fpsr_guest_status(fpsr: u64) -> (r: u32)
    ensures
        r == fpsr & 0x0800_009f,
{
    let status: u64 = fpsr & 0x0800_009f;
    proof {
        assert(fpsr & 0x0800_009f <= 0x0800_009f) by (bit_vector);
    }
    status as u32
}

/// The guest status that the host's raw status register stands for.
pub fn guest_status(host: HostAbi, raw: u64) -> (r: u32)
    ensures
        host == HostAbi::Aarch64 ==> r == raw & 0x0800_009f,
        host == HostAbi::X86_64 ==> {
            &&& r & 1 == (raw as u32) & 1
            &&& (r >> 1) & 1 == ((raw as u32) >> 2) & 1
            &&& (r >> 2) & 1 == ((raw as u32) >> 3) & 1
            &&& (r >> 3) & 1 == ((raw as u32) >> 4) & 1
            &&& (r >> 4) & 1 == ((raw as u32) >> 5) & 1
            &&& (r >> 7) & 1 == ((raw as u32) >> 1) & 1
            &&& r & !0x9f == 0
        },
{
    match host {
        HostAbi::X86_64 => mxcsr_guest_status(raw as u32),
        HostAbi::Aarch64 => fpsr_guest_status(raw),
    }
}

/// An activation marks the guest's environment as the one in force, and touches neither what
/// was saved of the host nor the guest's registers. A second one changes nothing.
pub proof fn law_activation_keeps_what_was_saved(state: GuestFp, install: bool)
    ensures
        state.activated(true).host.active == 1,
        state.activated(true).host.suspended == 0,
        state.activated(install).host.saved_control == state.host.saved_control,
        state.activated(install).host.saved_status == state.host.saved_status,
        state.activated(install).host.saved == state.host.saved,
        state.activated(install).fpcr == state.fpcr,
        state.activated(install).fpsr == state.fpsr,
        state.activated(install).activated(install) == state.activated(install),
        state.activated(false) == state,
{
}

} // verus!
