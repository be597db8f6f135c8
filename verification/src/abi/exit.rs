//! Reason codes that native code writes into the frame.

use vstd::prelude::*;

verus! {

/// Why native code returned. The frame stores a plain number, so that an invalid
/// one can be diagnosed.
#[derive(Clone, Copy, Debug, PartialEq, Eq, Structural)]
pub enum NativeExitReason {
    NoExit,
    Dispatch,
    BudgetExhausted,
    Control,
    Architectural,
    Unsupported,
    DataFault,
    Scheduled,
    Internal,
    Reconcile,
}

impl NativeExitReason {
    /// The number stored in the frame.
    pub open spec fn number(self) -> u32 {
        match self {
            NativeExitReason::NoExit => 0,
            NativeExitReason::Dispatch => 1,
            NativeExitReason::BudgetExhausted => 2,
            NativeExitReason::Control => 3,
            NativeExitReason::Architectural => 4,
            NativeExitReason::Unsupported => 5,
            NativeExitReason::DataFault => 6,
            NativeExitReason::Scheduled => 7,
            NativeExitReason::Internal => 8,
            NativeExitReason::Reconcile => 9,
        }
    }

    pub fn code(self) -> (r: u32)
        ensures
            r == self.number(),
    {
        match self {
            NativeExitReason::NoExit => 0,
            NativeExitReason::Dispatch => 1,
            NativeExitReason::BudgetExhausted => 2,
            NativeExitReason::Control => 3,
            NativeExitReason::Architectural => 4,
            NativeExitReason::Unsupported => 5,
            NativeExitReason::DataFault => 6,
            NativeExitReason::Scheduled => 7,
            NativeExitReason::Internal => 8,
            NativeExitReason::Reconcile => 9,
        }
    }

    /// The reason with this number.
    pub open spec fn of_code(value: u32) -> Option<NativeExitReason> {
        if value == 0 {
            Some(NativeExitReason::NoExit)
        } else if value == 1 {
            Some(NativeExitReason::Dispatch)
        } else if value == 2 {
            Some(NativeExitReason::BudgetExhausted)
        } else if value == 3 {
            Some(NativeExitReason::Control)
        } else if value == 4 {
            Some(NativeExitReason::Architectural)
        } else if value == 5 {
            Some(NativeExitReason::Unsupported)
        } else if value == 6 {
            Some(NativeExitReason::DataFault)
        } else if value == 7 {
            Some(NativeExitReason::Scheduled)
        } else if value == 8 {
            Some(NativeExitReason::Internal)
        } else if value == 9 {
            Some(NativeExitReason::Reconcile)
        } else {
            None
        }
    }

    /// Reads a stored number back; one that no reason has is handed back.
    pub fn try_from(value: u32) -> (r: Result<NativeExitReason, u32>)
        ensures
            match r {
                Ok(reason) => reason.number() == value && NativeExitReason::of_code(value) == Some(
                    reason,
                ),
                Err(unknown) => unknown == value && value > 9,
            },
    {
        match value {
            0 => Ok(NativeExitReason::NoExit),
            1 => Ok(NativeExitReason::Dispatch),
            2 => Ok(NativeExitReason::BudgetExhausted),
            3 => Ok(NativeExitReason::Control),
            4 => Ok(NativeExitReason::Architectural),
            5 => Ok(NativeExitReason::Unsupported),
            6 => Ok(NativeExitReason::DataFault),
            7 => Ok(NativeExitReason::Scheduled),
            8 => Ok(NativeExitReason::Internal),
            9 => Ok(NativeExitReason::Reconcile),
            unknown => Err(unknown),
        }
    }
}

} // verus!
