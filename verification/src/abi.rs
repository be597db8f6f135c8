//! Identities, dispatch payloads, budgets and physical entry and exit contracts.
//!
//! Addresses are meaningful only while the caller protects the execution epoch
//! of the code they point into.

use vstd::prelude::*;

pub mod budget;
pub mod contract;
pub mod dispatch;
pub mod exit;
pub mod flags;
pub mod identity;
pub mod keys;
pub mod location;

pub use budget::{BudgetError, PollBudget, PollOutcome, SAMPLE_INTERVAL};
pub use contract::{CanonicalEntryContract, EntryContract, ExitStateMap, NzcvLocation};
pub use dispatch::{DispatchPayload, ExitSiteKey, HcqEntry, NonZeroUsize, PublishedEntry};
pub use exit::NativeExitReason;
pub use flags::LazyFlags;
pub use identity::{CheckedCounter, Identity, IdentityExhausted};
pub use keys::{BlockKey, FpSpecialization, InstructionKey, ProcessCpuContext};
pub use location::{GuestValue, RegisterClass, ReservedRegisters, ValueBinding, ValueLocation};

verus! {

/// Version of the frame, register and entry layout that code units record.
pub const NATIVE_ABI_VERSION: u32 = 1;

pub const TRANSFER_BYTES: u32 = 2048;

pub const SPILL_BYTES: u32 = 16384;

#[derive(Clone, Copy, Debug, PartialEq, Eq, Structural)]
pub enum HostAbi {
    X86_64,
    Aarch64,
}

} // verus!
