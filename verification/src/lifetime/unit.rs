//! A complete, immutable unit of code, and what makes it fit for publication.

use vstd::prelude::*;
use super::coordinator::Error;
use super::dispatch::Publication;
use crate::abi::contract::{EntryContract, ExitStateMap, NzcvLocation};
use crate::abi::flags::LazyFlags;
use crate::abi::location::{ValueBinding, ValueLocation};
use crate::abi::dispatch::{NonZeroUsize, PublishedEntry};
use crate::abi::identity::{AdmissionEpoch, CodeUnitId, CodeVersion};
use crate::abi::keys::{word_aligned, BlockKey, InstructionKey};
use crate::abi::HostAbi;
use crate::executable::cache::{Allocation, MetadataLease};
use crate::executable::output::{Boundary, Metadata};
use crate::executable::Tier;

verus! {

/// An instruction with the bits that were captured, not a later read.
#[derive(Clone, Copy, Debug, PartialEq, Eq, Structural)]
pub struct Instruction {
    pub key: InstructionKey,
    pub bits: u32,
}

pub struct Entry {
    pub key: BlockKey,
    pub canonical_offset: u32,
    pub fast_offset: u32,
    pub contract: EntryContract,
}

pub struct StateRecord {
    pub native_offset: u32,
    pub state: ExitStateMap,
}

#[derive(Clone, Copy, Debug, PartialEq, Eq, Structural)]
pub enum Access {
    Read,
    Write,
    Atomic,
}

/// One native instruction that may fault, and the guest access it performs.
#[derive(Clone, Copy, Debug, PartialEq, Eq, Structural)]
pub struct FaultRecord {
    pub native_start: u32,
    pub native_end: u32,
    pub instruction: InstructionKey,
    pub access: Access,
    pub bytes: u8,
    pub subaccess: u16,
    pub commit_stage: u16,
    /// Index of the state map that holds before the access.
    pub state_map: u32,
}

/// A physical page of code, and the generation of the mapping it was read by.
#[derive(Clone, Copy, Debug, PartialEq, Eq, Hash, Structural)]
pub struct CodePageDependency {
    pub page: u64,
    pub generation: u64,
}

/// Code that lies in executable memory.
pub struct Installed {
    /// The cache that owns the memory.
    pub cache: u64,
    pub address: usize,
    pub allocation: Allocation,
    pub metadata: Metadata,
    pub charge: MetadataLease,
}

impl Installed {
    /// The code has addresses.
    pub open spec fn wf(&self) -> bool {
        &&& 0 < self.address
        &&& self.address + self.allocation.span.len <= usize::MAX
        &&& self.allocation.segment < crate::executable::SEGMENTS
    }
}

/// Numbers reserved for one unit before its code is emitted. They are used once.
pub struct EmissionIdentity {
    pub process: u64,
    pub admission: AdmissionEpoch,
    pub tier: Tier,
    pub id: CodeUnitId,
    pub version: CodeVersion,
}

impl EmissionIdentity {
    pub fn version(&self) -> (r: CodeVersion)
        ensures
            r == self.version,
    {
        self.version
    }
}

pub struct Input {
    pub identity: EmissionIdentity,
    pub code: Installed,
    pub tier: Tier,
    pub instructions: Vec<Instruction>,
    pub entries: Vec<Entry>,
    pub dependencies: Vec<CodePageDependency>,
    /// The memory authority's notification at which the image was frozen.
    pub cursor: u64,
    pub states: Vec<StateRecord>,
    pub faults: Vec<FaultRecord>,
}

/// Why a unit is not fit for publication.
pub ghost enum UnitFault {
    Stale,
    Invalid(Seq<char>),
    Failed(Error),
}

pub open spec fn fault_of(error: Error) -> UnitFault {
    match error {
        Error::StalePublication => UnitFault::Stale,
        Error::InvalidUnit(text) => UnitFault::Invalid(text@),
        other => UnitFault::Failed(other),
    }
}

/// The result reports exactly this fault.
pub open spec fn faulted(result: Result<(), Error>, fault: Option<UnitFault>) -> bool {
    match result {
        Ok(_) => fault is None,
        Err(error) => fault == Some(fault_of(error)),
    }
}

pub open spec fn first_of(first: Option<UnitFault>, second: Option<UnitFault>) -> Option<UnitFault> {
    if first is Some {
        first
    } else {
        second
    }
}

/// The fault of the first index that has one.
pub open spec fn first_fault(
    fault: spec_fn(int) -> Option<UnitFault>,
    from: int,
    len: int,
) -> Option<UnitFault>
    decreases len - from,
{
    if from >= len {
        None
    } else {
        first_of(fault(from), first_fault(fault, from + 1, len))
    }
}

pub open spec fn invalid(bad: bool, text: Seq<char>) -> Option<UnitFault> {
    if bad {
        Some(UnitFault::Invalid(text))
    } else {
        None
    }
}

pub open spec fn contract_fault(fault: Option<Seq<char>>) -> Option<UnitFault> {
    match fault {
        Some(text) => Some(UnitFault::Invalid(text)),
        None => None,
    }
}

pub open spec fn has_instruction(instructions: Seq<Instruction>, key: InstructionKey) -> bool {
    exists|k: int| 0 <= k < instructions.len() && (#[trigger] instructions[k]).key == key
}

pub open spec fn has_block(instructions: Seq<Instruction>, key: BlockKey) -> bool {
    exists|k: int| 0 <= k < instructions.len() && (#[trigger] instructions[k]).key.block() == key
}

pub open spec fn has_boundary(boundaries: Seq<Boundary>, offset: u32) -> bool {
    exists|k: int| 0 <= k < boundaries.len() && (#[trigger] boundaries[k]).offset == offset
}

/// A boundary that is not an entry.
pub open spec fn has_exit_boundary(boundaries: Seq<Boundary>, offset: u32) -> bool {
    exists|k: int|
        0 <= k < boundaries.len() && !(#[trigger] boundaries[k]).entry && boundaries[k].offset
            == offset
}

pub open spec fn has_label(entries: Seq<(u32, u32)>, offset: u32) -> bool {
    exists|k: int| 0 <= k < entries.len() && (#[trigger] entries[k]).1 == offset
}

pub open spec fn bad_offset(offset: u32, len: usize, abi: HostAbi) -> bool {
    offset >= len || (abi == HostAbi::Aarch64 && offset % 4 != 0)
}

impl Input {
    pub open spec fn header_fault(
        &self,
        process: u64,
        cache: u64,
        publications: Seq<Publication>,
    ) -> Option<UnitFault> {
        if self.code.cache != cache {
            invalid(true, "executable allocation belongs to a different process cache"@)
        } else if self.code.allocation.tier != self.tier {
            invalid(true, "unit tier differs from its executable allocation"@)
        } else if self.identity.process != process || self.identity.tier != self.tier {
            invalid(true, "emission identity belongs to another process or tier"@)
        } else {
            invalid(
                self.entries@.len() == 0 || self.instructions@.len() == 0 || publications.len()
                    != self.entries@.len(),
                "unit needs an instruction image and one publication per entry"@,
            )
        }
    }

    /// The instruction is in another address space than the first entry, or it
    /// occurs before.
    pub open spec fn instruction_fault(&self, i: int) -> Option<UnitFault> {
        let key = self.instructions@[i].key.block();
        invalid(
            !(word_aligned(key.pc) && key == (BlockKey { pc: key.pc, ..self.entries@[0].key }))
                || has_instruction(self.instructions@.take(i), self.instructions@[i].key),
            "duplicate instruction or mixed semantic address spaces"@,
        )
    }

    pub open spec fn entry_fault(
        &self,
        process: u64,
        publications: Seq<Publication>,
        i: int,
    ) -> Option<UnitFault> {
        let entry = self.entries@[i];
        let len = self.code.allocation.span.len;
        if publications[i].process != process || publications[i].key != entry.key {
            Some(UnitFault::Stale)
        } else if !has_block(self.instructions@, entry.key) || exists|k: int|
            0 <= k < i && (#[trigger] self.entries@[k]).key == entry.key {
            invalid(true, "entry is duplicate or absent from the instruction image"@)
        } else if bad_offset(entry.canonical_offset, len, self.code.metadata.abi) || bad_offset(
            entry.fast_offset,
            len,
            self.code.metadata.abi,
        ) {
            invalid(true, "entry offset is outside code or unaligned"@)
        } else if entry.contract.abi != self.code.metadata.abi || !has_label(
            self.code.metadata.entries@,
            entry.fast_offset,
        ) {
            invalid(true, "fast entry does not match the final backend ABI/label"@)
        } else {
            contract_fault(entry.contract.fault())
        }
    }

    pub open spec fn dependency_fault(&self, i: int) -> Option<UnitFault> {
        invalid(
            self.dependencies@.take(i).contains(self.dependencies@[i]),
            "duplicate code dependency"@,
        )
    }

    pub open spec fn state_fault(&self, i: int) -> Option<UnitFault> {
        let map = self.states@[i];
        if map.state.abi != self.code.metadata.abi || map.state.site.source
            != self.identity.version || map.state.site.state_map != i || map.native_offset
            >= self.code.allocation.span.len {
            invalid(true, "invalid semantic state-map identity, ABI or offset"@)
        } else if !has_exit_boundary(self.code.metadata.states@, map.native_offset)
            && !has_exit_boundary(self.code.metadata.faults@, map.native_offset) {
            invalid(true, "semantic state map has no final backend boundary"@)
        } else {
            contract_fault(map.state.fault())
        }
    }

    pub open spec fn has_state_at(&self, offset: u32) -> bool {
        exists|k: int|
            0 <= k < self.states@.len() && (#[trigger] self.states@[k]).native_offset == offset
    }

    pub open spec fn has_fault_at(&self, offset: u32) -> bool {
        exists|k: int|
            0 <= k < self.faults@.len() && (#[trigger] self.faults@[k]).native_start == offset
    }

    pub open spec fn exit_fault(&self, i: int) -> Option<UnitFault> {
        let boundary = self.code.metadata.states@[i];
        invalid(
            boundary.patch_bytes != 0 && !self.has_state_at(boundary.offset),
            "backend exit has no semantic state map"@,
        )
    }

    pub open spec fn record_fault(&self, i: int) -> Option<UnitFault> {
        let fault = self.faults@[i];
        let abi = self.code.metadata.abi;
        if fault.native_start >= fault.native_end || fault.native_end
            > self.code.allocation.span.len || (i != 0 && self.faults@[i - 1].native_end
            > fault.native_start) || !(fault.bytes == 1 || fault.bytes == 2 || fault.bytes == 4
            || fault.bytes == 8 || fault.bytes == 16) || !has_instruction(
            self.instructions@,
            fault.instruction,
        ) {
            invalid(true, "invalid/overlapping fault interval or guest access"@)
        } else if fault.state_map >= self.states@.len() {
            invalid(true, "missing prefault state map"@)
        } else if self.states@[fault.state_map as int].native_offset != fault.native_start
            || !has_boundary(self.code.metadata.faults@, fault.native_start) {
            invalid(true, "prefault map does not name the final faulting instruction"@)
        } else if abi == HostAbi::Aarch64 && (fault.native_start % 4 != 0 || fault.native_end
            - fault.native_start != 4) {
            invalid(true, "AArch64 fault interval must name one aligned instruction"@)
        } else {
            invalid(
                abi == HostAbi::X86_64 && fault.native_end - fault.native_start > 15,
                "x86-64 fault interval exceeds one instruction"@,
            )
        }
    }

    pub open spec fn backend_fault(&self, i: int) -> Option<UnitFault> {
        invalid(
            !self.has_fault_at(self.code.metadata.faults@[i].offset),
            "backend fault has no semantic record"@,
        )
    }

    /// Why the unit may not be published for `publications`: the first fault, in
    /// the order in which the parts are looked at.
    pub open spec fn fault(&self, process: u64, cache: u64, publications: Seq<Publication>) -> Option<
        UnitFault,
    > {
        first_of(
            self.header_fault(process, cache, publications),
            first_of(
                first_fault(|i: int| self.instruction_fault(i), 0, self.instructions@.len() as int),
                first_of(
                    first_fault(
                        |i: int| self.entry_fault(process, publications, i),
                        0,
                        self.entries@.len() as int,
                    ),
                    first_of(
                        first_fault(
                            |i: int| self.dependency_fault(i),
                            0,
                            self.dependencies@.len() as int,
                        ),
                        first_of(
                            first_fault(
                                |i: int| self.state_fault(i),
                                0,
                                self.states@.len() as int,
                            ),
                            first_of(
                                first_fault(
                                    |i: int| self.exit_fault(i),
                                    0,
                                    self.code.metadata.states@.len() as int,
                                ),
                                first_of(
                                    first_fault(
                                        |i: int| self.record_fault(i),
                                        0,
                                        self.faults@.len() as int,
                                    ),
                                    first_fault(
                                        |i: int| self.backend_fault(i),
                                        0,
                                        self.code.metadata.faults@.len() as int,
                                    ),
                                ),
                            ),
                        ),
                    ),
                ),
            ),
        )
    }

    fn validate_header(&self, process: u64, cache: u64, publications: &[Publication]) -> (r: Result<
        (),
        Error,
    >)
        ensures
            faulted(r, self.header_fault(process, cache, publications@)),
    {
        if self.code.cache != cache {
            return Err(
                Error::InvalidUnit("executable allocation belongs to a different process cache"),
            );
        }
        if self.code.allocation.tier != self.tier {
            return Err(Error::InvalidUnit("unit tier differs from its executable allocation"));
        }
        if self.identity.process != process || self.identity.tier != self.tier {
            return Err(Error::InvalidUnit("emission identity belongs to another process or tier"));
        }
        if self.entries.len() == 0 || self.instructions.len() == 0 || publications.len()
            != self.entries.len() {
            return Err(
                Error::InvalidUnit("unit needs an instruction image and one publication per entry"),
            );
        }
        Ok(())
    }

    /// Whether one of the first `count` instructions has the key.
    fn find_instruction(&self, count: usize, key: InstructionKey) -> (r: bool)
        requires
            count <= self.instructions@.len(),
        ensures
            r == has_instruction(self.instructions@.take(count as int), key),
    {
        let mut k: usize = 0;
        while k < count
            invariant
                k <= count <= self.instructions@.len(),
                forall|j: int| 0 <= j < k ==> (#[trigger] self.instructions@[j]).key != key,
            decreases count - k,
        {
            if self.instructions[k].key == key {
                assert(self.instructions@.take(count as int)[k as int].key == key);
                return true;
            }
            k = k + 1;
        }
        false
    }

    fn find_block(&self, key: BlockKey) -> (r: bool)
        ensures
            r == has_block(self.instructions@, key),
    {
        let mut k: usize = 0;
        while k < self.instructions.len()
            invariant
                k <= self.instructions@.len(),
                forall|j: int| 0 <= j < k ==> (#[trigger] self.instructions@[j]).key.block() != key,
            decreases self.instructions@.len() - k,
        {
            if self.instructions[k].key.block_key() == key {
                return true;
            }
            k = k + 1;
        }
        false
    }

    fn validate_instructions(&self) -> (r: Result<(), Error>)
        requires
            self.entries@.len() > 0,
        ensures
            faulted(r, first_fault(
                |i: int| self.instruction_fault(i),
                0,
                self.instructions@.len() as int,
            )),
    {
        let ghost f = |i: int| self.instruction_fault(i);
        let ghost n = self.instructions@.len() as int;
        let semantic = self.entries[0].key;
        let mut i: usize = 0;
        while i < self.instructions.len()
            invariant
                i <= n,
                n == self.instructions@.len(),
                self.entries@.len() > 0,
                semantic == self.entries@[0].key,
                f == (|i: int| self.instruction_fault(i)),
                first_fault(f, 0, n) == first_fault(f, i as int, n),
            decreases n - i,
        {
            let key = self.instructions[i].key.block_key();
            let same = match semantic.at(key.pc) {
                Some(expected) => expected == key,
                None => false,
            };
            assert(f(i as int) == self.instruction_fault(i as int));
            if !same || self.find_instruction(i, self.instructions[i].key) {
                return Err(
                    Error::InvalidUnit("duplicate instruction or mixed semantic address spaces"),
                );
            }
            i = i + 1;
        }
        Ok(())
    }

    fn entry_seen(&self, count: usize, key: BlockKey) -> (r: bool)
        requires
            count <= self.entries@.len(),
        ensures
            r == exists|k: int| 0 <= k < count && (#[trigger] self.entries@[k]).key == key,
    {
        let mut k: usize = 0;
        while k < count
            invariant
                k <= count <= self.entries@.len(),
                forall|j: int| 0 <= j < k ==> (#[trigger] self.entries@[j]).key != key,
            decreases count - k,
        {
            if self.entries[k].key == key {
                return true;
            }
            k = k + 1;
        }
        false
    }

    fn offset_is_bad(&self, offset: u32) -> (r: bool)
        ensures
            r == bad_offset(offset, self.code.allocation.span.len, self.code.metadata.abi),
    {
        offset as usize >= self.code.allocation.span.len || (self.code.metadata.abi
            == HostAbi::Aarch64 && offset % 4 != 0)
    }

    fn has_entry_label(&self, offset: u32) -> (r: bool)
        ensures
            r == has_label(self.code.metadata.entries@, offset),
    {
        let mut k: usize = 0;
        while k < self.code.metadata.entries.len()
            invariant
                k <= self.code.metadata.entries@.len(),
                forall|j: int|
                    0 <= j < k ==> (#[trigger] self.code.metadata.entries@[j]).1 != offset,
            decreases self.code.metadata.entries@.len() - k,
        {
            if self.code.metadata.entries[k].1 == offset {
                return true;
            }
            k = k + 1;
        }
        false
    }

    fn validate_entries(&self, process: u64, publications: &[Publication]) -> (r: Result<(), Error>)
        requires
            publications@.len() == self.entries@.len(),
        ensures
            faulted(r, first_fault(
                |i: int| self.entry_fault(process, publications@, i),
                0,
                self.entries@.len() as int,
            )),
    {
        let ghost f = |i: int| self.entry_fault(process, publications@, i);
        let ghost n = self.entries@.len() as int;
        let mut i: usize = 0;
        while i < self.entries.len()
            invariant
                i <= n,
                n == self.entries@.len(),
                n == publications@.len(),
                f == (|i: int| self.entry_fault(process, publications@, i)),
                first_fault(f, 0, n) == first_fault(f, i as int, n),
            decreases n - i,
        {
            let entry = &self.entries[i];
            assert(f(i as int) == self.entry_fault(process, publications@, i as int));
            if publications[i].process != process || publications[i].key != entry.key {
                return Err(Error::StalePublication);
            }
            if !self.find_block(entry.key) || self.entry_seen(i, entry.key) {
                return Err(
                    Error::InvalidUnit("entry is duplicate or absent from the instruction image"),
                );
            }
            if self.offset_is_bad(entry.canonical_offset) || self.offset_is_bad(
                entry.fast_offset,
            ) {
                return Err(Error::InvalidUnit("entry offset is outside code or unaligned"));
            }
            if entry.contract.abi != self.code.metadata.abi || !self.has_entry_label(
                entry.fast_offset,
            ) {
                return Err(
                    Error::InvalidUnit("fast entry does not match the final backend ABI/label"),
                );
            }
            if let Err(text) = entry.contract.validate() {
                return Err(Error::InvalidUnit(text));
            }
            i = i + 1;
        }
        Ok(())
    }

    fn validate_dependencies(&self) -> (r: Result<(), Error>)
        ensures
            faulted(r, first_fault(
                |i: int| self.dependency_fault(i),
                0,
                self.dependencies@.len() as int,
            )),
    {
        let ghost f = |i: int| self.dependency_fault(i);
        let ghost n = self.dependencies@.len() as int;
        let mut i: usize = 0;
        while i < self.dependencies.len()
            invariant
                i <= n,
                n == self.dependencies@.len(),
                f == (|i: int| self.dependency_fault(i)),
                first_fault(f, 0, n) == first_fault(f, i as int, n),
            decreases n - i,
        {
            assert(f(i as int) == self.dependency_fault(i as int));
            let ghost before = self.dependencies@.take(i as int);
            let mut k: usize = 0;
            while k < i
                invariant
                    k <= i < self.dependencies@.len(),
                    before == self.dependencies@.take(i as int),
                    n == self.dependencies@.len(),
                    f == (|i: int| self.dependency_fault(i)),
                    first_fault(f, 0, n) == first_fault(f, i as int, n),
                    f(i as int) == self.dependency_fault(i as int),
                    forall|j: int|
                        0 <= j < k ==> #[trigger] self.dependencies@[j]
                            != self.dependencies@[i as int],
                decreases i - k,
            {
                if self.dependencies[k] == self.dependencies[i] {
                    assert(before[k as int] == self.dependencies@[i as int]);
                    return Err(Error::InvalidUnit("duplicate code dependency"));
                }
                k = k + 1;
            }
            assert(!before.contains(self.dependencies@[i as int]));
            i = i + 1;
        }
        Ok(())
    }

    fn validate_states(&self) -> (r: Result<(), Error>)
        ensures
            faulted(r, first_fault(
                |i: int| self.state_fault(i),
                0,
                self.states@.len() as int,
            )),
    {
        let ghost f = |i: int| self.state_fault(i);
        let ghost n = self.states@.len() as int;
        let mut i: usize = 0;
        while i < self.states.len()
            invariant
                i <= n,
                n == self.states@.len(),
                f == (|i: int| self.state_fault(i)),
                first_fault(f, 0, n) == first_fault(f, i as int, n),
            decreases n - i,
        {
            let map = &self.states[i];
            assert(f(i as int) == self.state_fault(i as int));
            if map.state.abi != self.code.metadata.abi || map.state.site.source
                != self.identity.version || map.state.site.state_map as usize != i
                || map.native_offset as usize >= self.code.allocation.span.len {
                return Err(
                    Error::InvalidUnit("invalid semantic state-map identity, ABI or offset"),
                );
            }
            if !find_exit_boundary(&self.code.metadata.states, map.native_offset)
                && !find_exit_boundary(&self.code.metadata.faults, map.native_offset) {
                return Err(
                    Error::InvalidUnit("semantic state map has no final backend boundary"),
                );
            }
            if let Err(text) = map.state.validate() {
                return Err(Error::InvalidUnit(text));
            }
            i = i + 1;
        }
        Ok(())
    }

    fn find_state_at(&self, offset: u32) -> (r: bool)
        ensures
            r == self.has_state_at(offset),
    {
        let mut k: usize = 0;
        while k < self.states.len()
            invariant
                k <= self.states@.len(),
                forall|j: int| 0 <= j < k ==> (#[trigger] self.states@[j]).native_offset != offset,
            decreases self.states@.len() - k,
        {
            if self.states[k].native_offset == offset {
                return true;
            }
            k = k + 1;
        }
        false
    }

    fn find_fault_at(&self, offset: u32) -> (r: bool)
        ensures
            r == self.has_fault_at(offset),
    {
        let mut k: usize = 0;
        while k < self.faults.len()
            invariant
                k <= self.faults@.len(),
                forall|j: int| 0 <= j < k ==> (#[trigger] self.faults@[j]).native_start != offset,
            decreases self.faults@.len() - k,
        {
            if self.faults[k].native_start == offset {
                return true;
            }
            k = k + 1;
        }
        false
    }

    fn validate_exits(&self) -> (r: Result<(), Error>)
        ensures
            faulted(r, first_fault(
                |i: int| self.exit_fault(i),
                0,
                self.code.metadata.states@.len() as int,
            )),
    {
        let ghost f = |i: int| self.exit_fault(i);
        let ghost n = self.code.metadata.states@.len() as int;
        let mut i: usize = 0;
        while i < self.code.metadata.states.len()
            invariant
                i <= n,
                n == self.code.metadata.states@.len(),
                f == (|i: int| self.exit_fault(i)),
                first_fault(f, 0, n) == first_fault(f, i as int, n),
            decreases n - i,
        {
            assert(f(i as int) == self.exit_fault(i as int));
            let boundary = self.code.metadata.states[i];
            if boundary.patch_bytes != 0 && !self.find_state_at(boundary.offset) {
                return Err(Error::InvalidUnit("backend exit has no semantic state map"));
            }
            i = i + 1;
        }
        Ok(())
    }

    fn validate_fault(&self, i: usize) -> (r: Result<(), Error>)
        requires
            i < self.faults@.len(),
        ensures
            faulted(r, self.record_fault(i as int)),
    {
        let fault = &self.faults[i];
        let abi = self.code.metadata.abi;
        let bytes = fault.bytes == 1 || fault.bytes == 2 || fault.bytes == 4 || fault.bytes == 8
            || fault.bytes == 16;
        let count: usize = self.instructions.len();
        proof {
            assert(self.instructions@.take(count as int) =~= self.instructions@);
        }
        if fault.native_start >= fault.native_end || fault.native_end as usize
            > self.code.allocation.span.len || (i != 0 && self.faults[i - 1].native_end
            > fault.native_start) || !bytes || !self.find_instruction(count, fault.instruction) {
            return Err(Error::InvalidUnit("invalid/overlapping fault interval or guest access"));
        }
        if fault.state_map as usize >= self.states.len() {
            return Err(Error::InvalidUnit("missing prefault state map"));
        }
        if self.states[fault.state_map as usize].native_offset != fault.native_start
            || !find_boundary(&self.code.metadata.faults, fault.native_start) {
            return Err(
                Error::InvalidUnit("prefault map does not name the final faulting instruction"),
            );
        }
        if abi == HostAbi::Aarch64 && (fault.native_start % 4 != 0 || fault.native_end
            - fault.native_start != 4) {
            return Err(
                Error::InvalidUnit("AArch64 fault interval must name one aligned instruction"),
            );
        }
        if abi == HostAbi::X86_64 && fault.native_end - fault.native_start > 15 {
            return Err(Error::InvalidUnit("x86-64 fault interval exceeds one instruction"));
        }
        Ok(())
    }

    fn validate_faults(&self) -> (r: Result<(), Error>)
        ensures
            faulted(r, first_fault(
                |i: int| self.record_fault(i),
                0,
                self.faults@.len() as int,
            )),
    {
        let ghost f = |i: int| self.record_fault(i);
        let ghost n = self.faults@.len() as int;
        let mut i: usize = 0;
        while i < self.faults.len()
            invariant
                i <= n,
                n == self.faults@.len(),
                f == (|i: int| self.record_fault(i)),
                first_fault(f, 0, n) == first_fault(f, i as int, n),
            decreases n - i,
        {
            assert(f(i as int) == self.record_fault(i as int));
            self.validate_fault(i)?;
            i = i + 1;
        }
        Ok(())
    }

    fn validate_backend_faults(&self) -> (r: Result<(), Error>)
        ensures
            faulted(r, first_fault(
                |i: int| self.backend_fault(i),
                0,
                self.code.metadata.faults@.len() as int,
            )),
    {
        let ghost f = |i: int| self.backend_fault(i);
        let ghost n = self.code.metadata.faults@.len() as int;
        let mut i: usize = 0;
        while i < self.code.metadata.faults.len()
            invariant
                i <= n,
                n == self.code.metadata.faults@.len(),
                f == (|i: int| self.backend_fault(i)),
                first_fault(f, 0, n) == first_fault(f, i as int, n),
            decreases n - i,
        {
            assert(f(i as int) == self.backend_fault(i as int));
            if !self.find_fault_at(self.code.metadata.faults[i].offset) {
                return Err(Error::InvalidUnit("backend fault has no semantic record"));
            }
            i = i + 1;
        }
        Ok(())
    }

    /// Checks a unit against the process, the cache and the slots that it is to
    /// be published for.
    pub fn validate(&self, process: u64, cache: u64, publications: &[Publication]) -> (r: Result<
        (),
        Error,
    >)
        ensures
            faulted(r, self.fault(process, cache, publications@)),
    {
        self.validate_header(process, cache, publications)?;
        self.validate_instructions()?;
        self.validate_entries(process, publications)?;
        self.validate_dependencies()?;
        self.validate_states()?;
        self.validate_exits()?;
        self.validate_faults()?;
        self.validate_backend_faults()
    }
}

fn find_boundary(boundaries: &Vec<Boundary>, offset: u32) -> (r: bool)
    ensures
        r == has_boundary(boundaries@, offset),
{
    let mut k: usize = 0;
    while k < boundaries.len()
        invariant
            k <= boundaries@.len(),
            forall|j: int| 0 <= j < k ==> (#[trigger] boundaries@[j]).offset != offset,
        decreases boundaries@.len() - k,
    {
        if boundaries[k].offset == offset {
            return true;
        }
        k = k + 1;
    }
    false
}

fn find_exit_boundary(boundaries: &Vec<Boundary>, offset: u32) -> (r: bool)
    ensures
        r == has_exit_boundary(boundaries@, offset),
{
    let mut k: usize = 0;
    while k < boundaries.len()
        invariant
            k <= boundaries@.len(),
            forall|j: int|
                0 <= j < k ==> (#[trigger] boundaries@[j]).entry || boundaries@[j].offset != offset,
        decreases boundaries@.len() - k,
    {
        if !boundaries[k].entry && boundaries[k].offset == offset {
            return true;
        }
        k = k + 1;
    }
    false
}

/// Bytes of the machine words in a flag recipe.
pub open spec fn recipe_size(recipe: LazyFlags<ValueLocation>) -> int
    decreases recipe,
{
    match recipe {
        LazyFlags::Conditional { when_true, .. } => core::mem::size_of::<LazyFlags<ValueLocation>>()
            + recipe_size(*when_true),
        _ => 0,
    }
}

pub open spec fn nzcv_size(nzcv: NzcvLocation) -> int {
    match nzcv {
        NzcvLocation::Deferred(recipe) => recipe_size(recipe),
        _ => 0,
    }
}

pub open spec fn capped(bytes: int) -> int {
    if bytes <= usize::MAX {
        bytes
    } else {
        usize::MAX as int
    }
}

proof fn lemma_recipe_size(recipe: LazyFlags<ValueLocation>)
    ensures
        recipe_size(recipe) >= 0,
    decreases recipe,
{
    match recipe {
        LazyFlags::Conditional { when_true, .. } => {
            lemma_recipe_size(*when_true);
        },
        _ => {},
    }
}

pub fn recipe_bytes(recipe: &LazyFlags<ValueLocation>) -> (r: usize)
    ensures
        r == capped(recipe_size(*recipe)),
        recipe_size(*recipe) >= 0,
    decreases recipe,
{
    proof {
        lemma_recipe_size(*recipe);
    }
    match recipe {
        LazyFlags::Conditional { when_true, .. } => {
            let rest: usize = recipe_bytes(when_true);
            core::mem::size_of::<LazyFlags<ValueLocation>>().saturating_add(rest)
        },
        _ => 0,
    }
}

pub fn nzcv_bytes(nzcv: &NzcvLocation) -> (r: usize)
    ensures
        r == capped(nzcv_size(*nzcv)),
        nzcv_size(*nzcv) >= 0,
{
    match nzcv {
        NzcvLocation::Deferred(recipe) => recipe_bytes(recipe),
        _ => 0,
    }
}

pub open spec fn entry_extra(entry: Entry) -> int {
    entry.contract.bindings@.len() * core::mem::size_of::<ValueBinding>() + nzcv_size(
        entry.contract.nzcv,
    )
}

pub open spec fn state_extra(record: StateRecord) -> int {
    record.state.bindings@.len() * core::mem::size_of::<ValueBinding>() + nzcv_size(
        record.state.nzcv,
    )
}

pub open spec fn entries_extra(entries: Seq<Entry>, count: int) -> int
    decreases count,
{
    if count <= 0 {
        0
    } else {
        entries_extra(entries, count - 1) + entry_extra(entries[count - 1])
    }
}

pub open spec fn states_extra(states: Seq<StateRecord>, count: int) -> int
    decreases count,
{
    if count <= 0 {
        0
    } else {
        states_extra(states, count - 1) + state_extra(states[count - 1])
    }
}

/// Bytes of `count` items, as far as they can be counted.
pub fn capped_product(count: usize, item: usize) -> (r: usize)
    ensures
        r == capped(count * item),
        0 <= count * item,
{
    proof {
        assert(0 <= count * item) by (nonlinear_arith);
    }
    match count.checked_mul(item) {
        Some(bytes) => bytes,
        None => usize::MAX,
    }
}

impl Input {
    /// Bytes of the unit's metadata beside its code.
    pub open spec fn metadata_size(&self) -> int {
        core::mem::size_of::<CodeUnit>() + self.instructions@.len() * core::mem::size_of::<
            Instruction,
        >() + self.entries@.len() * core::mem::size_of::<Entry>() + self.dependencies@.len()
            * core::mem::size_of::<CodePageDependency>() + self.states@.len()
            * core::mem::size_of::<StateRecord>() + self.faults@.len() * core::mem::size_of::<
            FaultRecord,
        >() + entries_extra(self.entries@, self.entries@.len() as int) + states_extra(
            self.states@,
            self.states@.len() as int,
        )
    }

    pub fn metadata_bytes(&self) -> (r: usize)
        ensures
            r == capped(self.metadata_size()),
    {
        let mut extra: usize = 0;
        let mut k: usize = 0;
        while k < self.entries.len()
            invariant
                k <= self.entries@.len(),
                0 <= entries_extra(self.entries@, k as int),
                extra == capped(entries_extra(self.entries@, k as int)),
            decreases self.entries@.len() - k,
        {
            let contract = &self.entries[k].contract;
            let bindings: usize = capped_product(
                contract.bindings.len(),
                core::mem::size_of::<ValueBinding>(),
            );
            let flags: usize = nzcv_bytes(&contract.nzcv);
            extra = extra.saturating_add(bindings.saturating_add(flags));
            k = k + 1;
        }
        let mut states: usize = 0;
        let mut j: usize = 0;
        while j < self.states.len()
            invariant
                j <= self.states@.len(),
                0 <= states_extra(self.states@, j as int),
                states == capped(states_extra(self.states@, j as int)),
            decreases self.states@.len() - j,
        {
            let state = &self.states[j].state;
            let bindings: usize = capped_product(
                state.bindings.len(),
                core::mem::size_of::<ValueBinding>(),
            );
            let flags: usize = nzcv_bytes(&state.nzcv);
            states = states.saturating_add(bindings.saturating_add(flags));
            j = j + 1;
        }
        core::mem::size_of::<CodeUnit>().saturating_add(
            capped_product(self.instructions.len(), core::mem::size_of::<Instruction>()),
        ).saturating_add(
            capped_product(self.entries.len(), core::mem::size_of::<Entry>()),
        ).saturating_add(
            capped_product(self.dependencies.len(), core::mem::size_of::<CodePageDependency>()),
        ).saturating_add(
            capped_product(self.states.len(), core::mem::size_of::<StateRecord>()),
        ).saturating_add(
            capped_product(self.faults.len(), core::mem::size_of::<FaultRecord>()),
        ).saturating_add(extra).saturating_add(states)
    }
}

pub struct CodeUnit {
    pub id: CodeUnitId,
    pub version: CodeVersion,
    pub abi_version: u32,
    pub input: Input,
}

impl CodeUnit {
    /// What a slot publishes for the entry with these offsets.
    pub open spec fn publishes(&self, entry: Entry, published: PublishedEntry) -> bool {
        &&& published.unit == self.id
        &&& published.version == self.version
        &&& published.canonical.number() == self.input.code.address + entry.canonical_offset
        &&& published.fast.number() == self.input.code.address + entry.fast_offset
    }

    /// The addresses of an entry.
    pub fn entry(&self, entry: &Entry) -> (r: Option<PublishedEntry>)
        ensures
            match r {
                Some(published) => self.publishes(*entry, published),
                None => self.input.code.address + entry.canonical_offset > usize::MAX
                    || self.input.code.address + entry.fast_offset > usize::MAX
                    || self.input.code.address == 0,
            },
    {
        let base: usize = self.input.code.address;
        let canonical: usize = base.checked_add(entry.canonical_offset as usize)?;
        let fast: usize = base.checked_add(entry.fast_offset as usize)?;
        Some(
            PublishedEntry {
                unit: self.id,
                version: self.version,
                canonical: NonZeroUsize::new(canonical)?,
                fast: NonZeroUsize::new(fast)?,
            },
        )
    }
}

/// A unit that was found fit has exactly the entries it is published for, each
/// inside its code.
pub proof fn law_valid_entries_lie_in_code(
    input: Input,
    process: u64,
    cache: u64,
    publications: Seq<Publication>,
    i: int,
)
    requires
        input.fault(process, cache, publications) is None,
        0 <= i < input.entries@.len(),
    ensures
        publications.len() == input.entries@.len(),
        publications[i].key == input.entries@[i].key,
        publications[i].process == process,
        has_block(input.instructions@, input.entries@[i].key),
        input.entries@[i].canonical_offset < input.code.allocation.span.len,
        input.entries@[i].fast_offset < input.code.allocation.span.len,
        input.entries@[i].contract.fault() is None,
{
    let f = |i: int| input.entry_fault(process, publications, i);
    lemma_no_fault(f, 0, input.entries@.len() as int, i);
    assert(f(i) is None);
}

/// The fault intervals of a unit that was found fit are ordered and disjoint,
/// lie in its code, and each names a captured instruction and a state map that
/// holds just before it.
pub proof fn law_valid_faults_are_ordered(
    input: Input,
    process: u64,
    cache: u64,
    publications: Seq<Publication>,
    i: int,
)
    requires
        input.fault(process, cache, publications) is None,
        0 <= i < input.faults@.len(),
    ensures
        input.faults@[i].native_start < input.faults@[i].native_end,
        input.faults@[i].native_end <= input.code.allocation.span.len,
        i > 0 ==> input.faults@[i - 1].native_end <= input.faults@[i].native_start,
        has_instruction(input.instructions@, input.faults@[i].instruction),
        input.faults@[i].state_map < input.states@.len(),
        input.states@[input.faults@[i].state_map as int].native_offset
            == input.faults@[i].native_start,
{
    let f = |i: int| input.record_fault(i);
    lemma_no_fault(f, 0, input.faults@.len() as int, i);
    assert(f(i) is None);
}

pub proof fn lemma_no_fault(f: spec_fn(int) -> Option<UnitFault>, from: int, len: int, i: int)
    requires
        first_fault(f, from, len) is None,
        from <= i < len,
    ensures
        f(i) is None,
    decreases i - from,
{
    if from < i {
        lemma_no_fault(f, from + 1, len, i);
    }
}

} // verus!
