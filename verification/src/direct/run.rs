//! Binding of guest memory, and what is checked before native code runs over it.

use vstd::prelude::*;
use super::error::{DirectJitError, DirectJitErrorKind};

verus! {

#[derive(Clone, Copy, Debug, PartialEq, Eq, Structural)]
pub enum MemoryBackend {
    Checked,
    LinuxDirect,
}

/// The arena of a directly mapped address space.
#[derive(Clone, Copy, Debug, PartialEq, Eq, Structural)]
pub struct DirectView {
    pub base: usize,
    pub address_space_size: usize,
}

#[derive(Clone, Copy, Debug, PartialEq, Eq, Structural)]
pub struct BoundMemory {
    pub address_space: u64,
    pub end_exclusive: u64,
    pub backend: MemoryBackend,
    pub direct: Option<DirectView>,
}

pub open spec fn invalid_request(r: Result<(), DirectJitError>, text: Seq<char>) -> bool {
    r matches Err(error) && error.is(DirectJitErrorKind::InvalidGuestCode, text)
}

/// The owner that is to keep memory is the memory that is bound.
pub fn check_owner(memory: u64, owner: u64) -> (r: Result<(), DirectJitError>)
    ensures
        if memory != owner {
            r matches Err(error) && error.is(
                DirectJitErrorKind::InvalidGuestCode,
                "JIT memory owner differs from the bound memory"@,
            )
        } else {
            r is Ok
        },
{
    if memory != owner {
        return Err(DirectJitError::invalid("JIT memory owner differs from the bound memory"));
    }
    Ok(())
}

/// What a process asks for when memory is bound: the arena must be there exactly
/// when memory is mapped directly, and span the address space.
pub fn check_binding(
    process_space: u64,
    address_space: u64,
    end_exclusive: u64,
    backend: MemoryBackend,
    view: Option<DirectView>,
) -> (r: Result<BoundMemory, DirectJitError>)
    ensures
        match r {
            Ok(bound) => {
                &&& address_space == process_space
                &&& bound.address_space == address_space
                &&& bound.end_exclusive == end_exclusive
                &&& bound.backend == backend
                &&& match backend {
                    MemoryBackend::Checked => bound.direct is None,
                    MemoryBackend::LinuxDirect => bound.direct == view && (view matches Some(view)
                        && view.address_space_size == end_exclusive),
                }
            },
            Err(error) => if address_space != process_space {
                error.is(
                    DirectJitErrorKind::InvalidGuestCode,
                    "JIT memory binding uses a different process address space"@,
                )
            } else {
                &&& backend == MemoryBackend::LinuxDirect
                &&& match view {
                    None => error.is(
                        DirectJitErrorKind::Internal,
                        "LinuxDirect memory binding has no direct address-space view"@,
                    ),
                    Some(view) => view.address_space_size != end_exclusive && error.is(
                        DirectJitErrorKind::InvalidGuestCode,
                        "direct arena size differs from the process address space"@,
                    ),
                }
            },
        },
{
    if address_space != process_space {
        return Err(
            DirectJitError::invalid("JIT memory binding uses a different process address space"),
        );
    }
    let direct = match backend {
        MemoryBackend::Checked => None,
        MemoryBackend::LinuxDirect => match view {
            None => {
                return Err(
                    DirectJitError::internal(
                        "LinuxDirect memory binding has no direct address-space view",
                    ),
                );
            },
            Some(view) => {
                if view.address_space_size as u64 != end_exclusive {
                    return Err(
                        DirectJitError::invalid(
                            "direct arena size differs from the process address space",
                        ),
                    );
                }
                Some(view)
            },
        },
    };
    Ok(BoundMemory { address_space, end_exclusive, backend, direct })
}

/// The memory of a process. Once bound it stays.
#[derive(Clone, Copy, Debug, PartialEq, Eq, Structural)]
pub struct MemoryState {
    pub bound: Option<BoundMemory>,
    /// The owner that keeps the memory alive.
    pub owner: Option<u64>,
}

impl MemoryState {
    /// The text with which a binding is refused.
    pub open spec fn bind_fault(self, requested: BoundMemory, owner: Option<u64>) -> Option<Seq<char>> {
        match self.bound {
            None => None,
            Some(bound) => if bound != requested {
                Some("JIT process memory backend is immutable after binding"@)
            } else if owner is Some && self.owner is Some && owner != self.owner {
                Some("JIT process memory owner is immutable after binding"@)
            } else {
                None
            },
        }
    }

    /// Binds memory, or confirms the binding that is there. An owner may come
    /// later, and stays then.
    pub fn bind(&mut self, requested: BoundMemory, owner: Option<u64>) -> (r: Result<
        (),
        DirectJitError,
    >)
        ensures
            match old(self).bind_fault(requested, owner) {
                Some(text) => invalid_request(r, text) && *final(self) == *old(self),
                None => {
                    &&& r is Ok
                    &&& final(self).bound == Some(requested)
                    &&& final(self).owner == if old(self).bound is Some && old(self).owner is Some {
                        old(self).owner
                    } else {
                        owner
                    }
                },
            },
    {
        match self.bound {
            Some(bound) => {
                if bound != requested {
                    return Err(
                        DirectJitError::invalid(
                            "JIT process memory backend is immutable after binding",
                        ),
                    );
                }
                if let Some(owner) = owner {
                    match self.owner {
                        Some(current) => {
                            if current != owner {
                                return Err(
                                    DirectJitError::invalid(
                                        "JIT process memory owner is immutable after binding",
                                    ),
                                );
                            }
                        },
                        None => {
                            self.owner = Some(owner);
                        },
                    }
                }
            },
            None => {
                self.bound = Some(requested);
                self.owner = owner;
            },
        }
        Ok(())
    }

    /// The binding, or checked access where none was made.
    pub fn backend(&self, address_space: u64) -> (r: BoundMemory)
        ensures
            r == match self.bound {
                Some(bound) => bound,
                None => BoundMemory {
                    address_space,
                    end_exclusive: 0,
                    backend: MemoryBackend::Checked,
                    direct: None,
                },
            },
    {
        match self.bound {
            Some(bound) => bound,
            None => BoundMemory {
                address_space,
                end_exclusive: 0,
                backend: MemoryBackend::Checked,
                direct: None,
            },
        }
    }
}

/// Why native code cannot be run over this memory.
pub open spec fn run_fault(
    bound: BoundMemory,
    backend: MemoryBackend,
    direct: Option<DirectView>,
    has_fault_context: bool,
) -> Option<(DirectJitErrorKind, Seq<char>)> {
    if backend != bound.backend || direct != bound.direct {
        Some(
            (
                DirectJitErrorKind::InvalidGuestCode,
                "JIT execution memory differs from its immutable process binding"@,
            ),
        )
    } else if bound.backend == MemoryBackend::LinuxDirect && !has_fault_context {
        Some(
            (
                DirectJitErrorKind::Internal,
                "direct JIT worker entered native code without a fault context"@,
            ),
        )
    } else {
        None
    }
}

/// Checks that memory is still the one that was bound, and that a directly mapped
/// guest has somebody to catch its faults.
pub fn check_run(
    bound: &BoundMemory,
    backend: MemoryBackend,
    direct: Option<DirectView>,
    has_fault_context: bool,
) -> (r: Result<(), DirectJitError>)
    ensures
        match run_fault(*bound, backend, direct, has_fault_context) {
            None => r is Ok,
            Some((kind, text)) => r matches Err(error) && error.is(kind, text),
        },
{
    if backend != bound.backend || direct != bound.direct {
        return Err(
            DirectJitError::invalid(
                "JIT execution memory differs from its immutable process binding",
            ),
        );
    }
    if bound.backend == MemoryBackend::LinuxDirect && !has_fault_context {
        return Err(
            DirectJitError::internal(
                "direct JIT worker entered native code without a fault context",
            ),
        );
    }
    Ok(())
}

/// A slice over directly mapped memory starts under a lease of that memory.
pub fn check_slice(bound: &BoundMemory, authorized: bool) -> (r: Result<(), DirectJitError>)
    ensures
        if bound.backend == MemoryBackend::LinuxDirect && !authorized {
            invalid_request(r, "LinuxDirect JIT execution requires its live mapping lease"@)
        } else {
            r is Ok
        },
{
    if bound.backend == MemoryBackend::LinuxDirect && !authorized {
        return Err(
            DirectJitError::invalid("LinuxDirect JIT execution requires its live mapping lease"),
        );
    }
    Ok(())
}

/// Native code over directly mapped memory runs under a lease of its own. `lease`
/// is whether one was granted, and whether it is a lease of this memory.
pub fn check_lease(bound: &BoundMemory, lease: Option<bool>) -> (r: Result<(), DirectJitError>)
    ensures
        if bound.backend == MemoryBackend::Checked || lease == Some(true) {
            r is Ok
        } else if lease is None {
            invalid_request(r, "LinuxDirect memory cannot acquire its native execution lease"@)
        } else {
            invalid_request(r, "LinuxDirect memory acquired a lease from another owner"@)
        },
{
    if bound.backend == MemoryBackend::Checked {
        return Ok(());
    }
    match lease {
        None => Err(
            DirectJitError::invalid("LinuxDirect memory cannot acquire its native execution lease"),
        ),
        Some(true) => Ok(()),
        Some(false) => Err(
            DirectJitError::invalid("LinuxDirect memory acquired a lease from another owner"),
        ),
    }
}

/// An entry with the invalidations that it was looked up after.
#[derive(Clone, Copy, Debug, PartialEq, Eq, Structural)]
pub struct EntryPoint {
    pub entry: usize,
    pub invalidation_cursor: u64,
}

/// The entry to run. Under a lease the entry is looked up again, and where it is
/// gone the round starts over.
pub fn choose_entry(bound: &BoundMemory, compiled: EntryPoint, published: Option<EntryPoint>) -> (r:
    Option<EntryPoint>)
    ensures
        r == match bound.backend {
            MemoryBackend::Checked => Some(compiled),
            MemoryBackend::LinuxDirect => published,
        },
{
    match bound.backend {
        MemoryBackend::Checked => Some(compiled),
        MemoryBackend::LinuxDirect => published,
    }
}

/// A binding never changes: after memory is bound every later binding that
/// succeeds is the same.
pub proof fn law_binding_is_immutable(before: MemoryState, requested: BoundMemory, owner: Option<u64>)
    requires
        before.bound is Some,
        before.bind_fault(requested, owner) is None,
    ensures
        before.bound == Some(requested),
{
}

/// Native code runs exactly over the memory that the process is bound to, and over memory
/// that is mapped directly only where somebody catches its faults.
pub proof fn law_code_runs_over_its_memory(
    bound: BoundMemory,
    backend: MemoryBackend,
    direct: Option<DirectView>,
    has_fault_context: bool,
)
    ensures
        run_fault(bound, backend, direct, has_fault_context) is None <==> backend == bound.backend
            && direct == bound.direct && (backend is LinuxDirect ==> has_fault_context),
{
}

} // verus!
