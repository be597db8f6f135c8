//! What identifies translated code.

use vstd::prelude::*;

verus! {

/// Unspecialized code reads the current FPCR; specialized code is usable only
/// with this exact FPCR. Mapping and content generations are not part of a key.
#[derive(Clone, Copy, Debug, PartialEq, Eq, Hash, Structural)]
pub enum FpSpecialization {
    Dynamic,
    Exact(u32),
}

/// The process that guest code runs in.
#[derive(Clone, Copy, Debug, PartialEq, Eq, Hash, Structural)]
pub struct ProcessCpuContext {
    pub address_space: u64,
    pub profile: u32,
    pub platform: u32,
}

#[derive(Clone, Copy, Debug, PartialEq, Eq, Hash, Structural)]
pub struct BlockKey {
    pub address_space: u64,
    pub pc: u64,
    pub profile: u32,
    pub platform: u32,
    pub fp: FpSpecialization,
}

pub open spec fn word_aligned(pc: u64) -> bool {
    pc % 4 == 0
}

fn is_word_aligned(pc: u64) -> (r: bool)
    ensures
        r == word_aligned(pc),
{
    proof {
        assert((pc & 3 == 0) == (pc % 4 == 0)) by (bit_vector);
    }
    pc & 3 == 0
}

impl BlockKey {
    pub fn new(cpu: ProcessCpuContext, pc: u64, fp: FpSpecialization) -> (r: Option<BlockKey>)
        ensures
            r == if word_aligned(pc) {
                Some(
                    BlockKey {
                        address_space: cpu.address_space,
                        pc,
                        profile: cpu.profile,
                        platform: cpu.platform,
                        fp,
                    },
                )
            } else {
                None
            },
    {
        if !is_word_aligned(pc) {
            return None;
        }
        Some(
            BlockKey {
                address_space: cpu.address_space,
                pc,
                profile: cpu.profile,
                platform: cpu.platform,
                fp,
            },
        )
    }

    /// The same process and mode at another address.
    pub fn at(self, pc: u64) -> (r: Option<BlockKey>)
        ensures
            r == if word_aligned(pc) {
                Some(BlockKey { pc, ..self })
            } else {
                None
            },
    {
        if !is_word_aligned(pc) {
            return None;
        }
        Some(BlockKey { pc, ..self })
    }
}

#[derive(Clone, Copy, Debug, PartialEq, Eq, Hash, Structural)]
pub struct InstructionKey {
    key: BlockKey,
}

impl InstructionKey {
    pub closed spec fn block(self) -> BlockKey {
        self.key
    }

    pub fn new(key: BlockKey) -> (r: Option<InstructionKey>)
        ensures
            r is Some <==> word_aligned(key.pc),
            r matches Some(instruction) ==> instruction.block() == key,
    {
        if !is_word_aligned(key.pc) {
            None
        } else {
            Some(InstructionKey { key })
        }
    }

    pub fn block_key(self) -> (r: BlockKey)
        ensures
            r == self.block(),
    {
        self.key
    }
}

} // verus!
