//! Host faults of native code on guest memory.

use vstd::prelude::*;
use super::error::{DirectJitError, DirectJitErrorKind};
use super::exit::ExitWords;
use crate::abi::exit::NativeExitReason;
use crate::decode::MemoryAccessSize;

verus! {

/// The guest access that a native instruction performs.
#[derive(Clone, Copy, Debug, PartialEq, Eq, Structural)]
pub struct NativeAccess {
    pub address_space: u64,
    pub guest_pc: u64,
    pub size: u8,
    pub write: bool,
    /// Which of the instruction's accesses this is.
    pub element_index: u8,
}

/// The arena that a guest address space is mapped into.
#[derive(Clone, Copy, Debug, PartialEq, Eq, Structural)]
pub struct FaultArena {
    pub address_space: u64,
    pub base: usize,
    pub size: usize,
}

/// The guest access that faulted.
#[derive(Clone, Copy, Debug, PartialEq, Eq, Structural)]
pub struct GuestAccess {
    pub address: u64,
    pub size: MemoryAccessSize,
    pub write: bool,
}

pub open spec fn access_size(bytes: u8) -> Option<MemoryAccessSize> {
    if bytes == 1 {
        Some(MemoryAccessSize::Byte)
    } else if bytes == 2 {
        Some(MemoryAccessSize::Halfword)
    } else if bytes == 4 {
        Some(MemoryAccessSize::Word)
    } else if bytes == 8 {
        Some(MemoryAccessSize::Doubleword)
    } else if bytes == 16 {
        Some(MemoryAccessSize::Quadword)
    } else {
        None
    }
}

pub fn direct_access_size(bytes: u8) -> (r: Option<MemoryAccessSize>)
    ensures
        r == access_size(bytes),
{
    match bytes {
        1 => Some(MemoryAccessSize::Byte),
        2 => Some(MemoryAccessSize::Halfword),
        4 => Some(MemoryAccessSize::Word),
        8 => Some(MemoryAccessSize::Doubleword),
        16 => Some(MemoryAccessSize::Quadword),
        _ => None,
    }
}

/// The access that a fault at a host address stands for.
pub open spec fn located(arena: FaultArena, access: NativeAccess, fault_address: usize) -> Option<
    GuestAccess,
> {
    if access.address_space == arena.address_space && arena.base + arena.size <= usize::MAX
        && arena.base <= fault_address < arena.base + arena.size && access_size(access.size)
        is Some {
        Some(
            GuestAccess {
                address: (fault_address - arena.base) as u64,
                size: access_size(access.size)->0,
                write: access.write,
            },
        )
    } else {
        None
    }
}

/// The access that a fault at a host address stands for. None means that it is no
/// guest access, and fatal.
pub fn locate_fault(arena: &FaultArena, access: &NativeAccess, fault_address: usize) -> (r: Option<
    GuestAccess,
>)
    ensures
        r == if access.address_space == arena.address_space && arena.base + arena.size
            <= usize::MAX && arena.base <= fault_address < arena.base + arena.size && access_size(
            access.size,
        ) is Some {
            Some(
                GuestAccess {
                    address: (fault_address - arena.base) as u64,
                    size: access_size(access.size)->0,
                    write: access.write,
                },
            )
        } else {
            None
        },
        r == located(*arena, *access, fault_address),
{
    if access.address_space != arena.address_space {
        return None;
    }
    let end: usize = arena.base.checked_add(arena.size)?;
    if fault_address < arena.base || fault_address >= end {
        return None;
    }
    let size = direct_access_size(access.size)?;
    Some(
        GuestAccess {
            address: (fault_address - arena.base) as u64,
            size,
            write: access.write,
        },
    )
}

/// How guest memory answers a fault.
pub enum Resolution<F> {
    Retry,
    Fault(F),
    Fatal(String),
}

/// What happens to the native code that faulted.
#[derive(Debug)]
pub enum FaultOutcome<F> {
    Retry,
    /// It is left, with these exit words; the guest stands at their address.
    Escape(ExitWords<F>),
}

/// Turns the answer of guest memory into the end of the native invocation.
pub fn settle_fault<F>(resolution: Resolution<F>, guest_pc: u64, detail: u32) -> (r: FaultOutcome<F>)
    ensures
        match resolution {
            Resolution::Retry => r is Retry,
            Resolution::Fault(fault) => r matches FaultOutcome::Escape(words) && words == (
            ExitWords {
                pc: guest_pc,
                kind: NativeExitReason::DataFault.number(),
                detail: 0,
                data_fault: Some(fault),
                fault_error: None,
            }),
            Resolution::Fatal(text) => r matches FaultOutcome::Escape(words) && words == (ExitWords {
                pc: guest_pc,
                kind: NativeExitReason::Internal.number(),
                detail,
                data_fault: None::<F>,
                fault_error: Some(text),
            }),
        },
{
    match resolution {
        Resolution::Retry => FaultOutcome::Retry,
        Resolution::Fault(fault) => FaultOutcome::Escape(
            ExitWords {
                pc: guest_pc,
                kind: NativeExitReason::DataFault.code(),
                detail: 0,
                data_fault: Some(fault),
                fault_error: None,
            },
        ),
        Resolution::Fatal(text) => FaultOutcome::Escape(
            ExitWords {
                pc: guest_pc,
                kind: NativeExitReason::Internal.code(),
                detail,
                data_fault: None,
                fault_error: Some(text),
            },
        ),
    }
}

/// A faulting instruction, by its offsets in the compiled code.
#[derive(Clone, Copy, Debug, PartialEq, Eq, Structural)]
pub struct CompiledFaultSite {
    pub native_start: u32,
    pub native_end: u32,
    pub access: NativeAccess,
}

/// The same, by its addresses.
#[derive(Clone, Copy, Debug, PartialEq, Eq, Structural)]
pub struct NativeFaultSite {
    pub native_start: usize,
    pub native_end: usize,
    pub access: NativeAccess,
}

#[derive(Debug)]
pub struct NativeFaultRegion {
    pub native_start: usize,
    pub native_end: usize,
    pub sites: Vec<NativeFaultSite>,
}

pub open spec fn site_at(entry: usize, site: CompiledFaultSite) -> NativeFaultSite {
    NativeFaultSite {
        native_start: (entry + site.native_start) as usize,
        native_end: (entry + site.native_end) as usize,
        access: site.access,
    }
}

/// The addresses at which compiled code may fault. Code without such places has
/// none to register.
pub fn native_fault_metadata(entry: usize, native_bytes: usize, sites: &Vec<CompiledFaultSite>) -> (r:
    Result<Option<NativeFaultRegion>, DirectJitError>)
    ensures
        match r {
            Ok(None) => sites@.len() == 0,
            Ok(Some(region)) => {
                &&& sites@.len() > 0
                &&& region.native_start == entry
                &&& region.native_end == entry + native_bytes
                &&& region.sites@ == Seq::new(sites@.len(), |k: int| site_at(entry, sites@[k]))
                &&& forall|k: int|
                    0 <= k < sites@.len() ==> entry + (#[trigger] sites@[k]).native_start
                        <= usize::MAX && entry + sites@[k].native_end <= usize::MAX
            },
            Err(error) => {
                &&& sites@.len() > 0
                &&& error.kind == DirectJitErrorKind::Internal
                &&& if entry + native_bytes > usize::MAX {
                    error.detail@ == "compiled native region address overflows"@
                } else {
                    exists|k: int|
                        0 <= k < sites@.len() && (entry + (#[trigger] sites@[k]).native_start
                            > usize::MAX && error.detail@ == "native fault-site start overflows"@
                            || entry + sites@[k].native_start <= usize::MAX && entry
                            + sites@[k].native_end > usize::MAX && error.detail@
                            == "native fault-site end overflows"@) && forall|j: int|
                            0 <= j < k ==> entry + (#[trigger] sites@[j]).native_start
                                <= usize::MAX && entry + sites@[j].native_end <= usize::MAX
                }
            },
        },
{
    if sites.len() == 0 {
        return Ok(None);
    }
    let native_end: usize = match entry.checked_add(native_bytes) {
        Some(end) => end,
        None => {
            return Err(DirectJitError::internal("compiled native region address overflows"));
        },
    };
    let mut resolved: Vec<NativeFaultSite> = Vec::new();
    let mut k: usize = 0;
    while k < sites.len()
        invariant
            k <= sites@.len(),
            entry + native_bytes <= usize::MAX,
            resolved@.len() == k,
            forall|j: int| 0 <= j < k ==> #[trigger] resolved@[j] == site_at(entry, sites@[j]),
            forall|j: int|
                0 <= j < k ==> entry + (#[trigger] sites@[j]).native_start <= usize::MAX && entry
                    + sites@[j].native_end <= usize::MAX,
        decreases sites@.len() - k,
    {
        let site = sites[k];
        let start: usize = match entry.checked_add(site.native_start as usize) {
            Some(start) => start,
            None => {
                assert(entry + sites@[k as int].native_start > usize::MAX);
                return Err(DirectJitError::internal("native fault-site start overflows"));
            },
        };
        let end: usize = match entry.checked_add(site.native_end as usize) {
            Some(end) => end,
            None => {
                assert(entry + sites@[k as int].native_end > usize::MAX);
                return Err(DirectJitError::internal("native fault-site end overflows"));
            },
        };
        resolved.push(
            NativeFaultSite { native_start: start, native_end: end, access: site.access },
        );
        k = k + 1;
    }
    proof {
        assert(resolved@ =~= Seq::new(sites@.len(), |k: int| site_at(entry, sites@[k])));
    }
    Ok(Some(NativeFaultRegion { native_start: entry, native_end, sites: resolved }))
}

/// The size of an access is the one with that many bytes.
pub proof fn law_sizes_have_their_bytes(bytes: u8, size: MemoryAccessSize)
    ensures
        access_size(bytes) == Some(size) <==> size.byte_count() == bytes,
        access_size(bytes) is None ==> size.byte_count() != bytes,
{
}

/// A guest access that faulted lies where the host fault does: its address in the arena is
/// the host address, it is in the arena, and it is as wide and as much a write as the
/// native access. Every fault in the arena of its own space is such an access.
pub proof fn law_faults_are_located(arena: FaultArena, access: NativeAccess, fault_address: usize)
    requires
        arena.base + arena.size <= usize::MAX,
    ensures
        match located(arena, access, fault_address) {
            Some(found) => {
                &&& arena.base + found.address == fault_address
                &&& found.address < arena.size
                &&& found.size.byte_count() == access.size
                &&& found.write == access.write
                &&& access.address_space == arena.address_space
            },
            None => access.address_space != arena.address_space || !(arena.base <= fault_address
                < arena.base + arena.size) || forall|size: MemoryAccessSize|
                #[trigger] size.byte_count() != access.size,
        },
{
}

} // verus!
