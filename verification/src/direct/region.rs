//! The control flow of a region.

use vstd::prelude::*;
use crate::abi::HostAbi;
use crate::analysis::access::{block_effects, block_reads, block_writes, live_before_block};
use crate::analysis::{BlockEffects, StateItem, StateSet};
use crate::decode::A64Instruction;
use crate::fp_policy::{disposition, fp_lowering_disposition};

verus! {

/// How a block of guest code ends.
#[derive(Clone, Copy, Debug, PartialEq, Eq, Structural)]
pub enum BlockTerminator {
    Direct { target: u64 },
    Conditional { taken: u64, not_taken: u64 },
    Call { target: u64, return_address: u64 },
    Indirect,
    SupervisorCall { syndrome: Option<u64> },
    Breakpoint { syndrome: Option<u64> },
    OtherException { syndrome: Option<u64> },
    Unsupported,
    FpModeChange { continuation: u64 },
    Limit { continuation: u64 },
}

impl BlockTerminator {
    /// The block may be left for this address without leaving native code.
    pub open spec fn reaches(self, target: u64) -> bool {
        match self {
            BlockTerminator::Direct { target: to } => to == target,
            BlockTerminator::Conditional { taken, not_taken } => taken == target || not_taken
                == target,
            _ => false,
        }
    }

    /// The addresses that it may be left for.
    pub fn targets(self) -> (r: (Option<u64>, Option<u64>))
        ensures
            forall|target: u64| #[trigger]
                self.reaches(target) <==> r.0 == Some(target) || r.1 == Some(target),
            !(self is Direct) && !(self is Conditional) ==> r == (None::<u64>, None::<u64>),
            self is Direct || self is Conditional ==> r.0 is Some,
    {
        match self {
            BlockTerminator::Direct { target } => (Some(target), None),
            BlockTerminator::Conditional { taken, not_taken } => (Some(taken), Some(not_taken)),
            _ => (None, None),
        }
    }
}

pub struct RegionBlock {
    pub start: u64,
    /// The address of the last instruction, or of the block where it has none.
    pub source: u64,
    pub instructions: Vec<A64Instruction>,
    pub terminator: BlockTerminator,
}

/// Blocks of guest code that are compiled together. The first to run is the one
/// at `start`.
pub struct Region {
    pub start: u64,
    pub blocks: Vec<RegionBlock>,
}

/// Control may go from block `from` to block `to`.
pub open spec fn flows(blocks: Seq<RegionBlock>, from: int, to: int) -> bool {
    blocks[from].terminator.reaches(blocks[to].start)
}

pub open spec fn instructions_normalized(instructions: Seq<A64Instruction>) -> bool {
    forall|k: int| 0 <= k < instructions.len() ==> (#[trigger] instructions[k]).normalized()
}

impl Region {
    /// No two blocks start at one address, and one starts where the region does.
    pub open spec fn wf(&self) -> bool {
        &&& forall|i: int, j: int|
            0 <= i < j < self.blocks@.len() ==> (#[trigger] self.blocks@[i]).start != (
            #[trigger] self.blocks@[j]).start
        &&& exists|k: int|
            0 <= k < self.blocks@.len() && (#[trigger] self.blocks@[k]).start == self.start
        &&& forall|k: int|
            0 <= k < self.blocks@.len() ==> instructions_normalized(
                (#[trigger] self.blocks@[k]).instructions@,
            )
    }

    pub open spec fn has_block(&self, pc: u64) -> bool {
        exists|k: int| 0 <= k < self.blocks@.len() && (#[trigger] self.blocks@[k]).start == pc
    }

    pub fn index_of(&self, pc: u64) -> (r: Option<usize>)
        ensures
            match r {
                Some(k) => k < self.blocks@.len() && self.blocks@[k as int].start == pc,
                None => !self.has_block(pc),
            },
    {
        let mut k: usize = 0;
        while k < self.blocks.len()
            invariant
                k <= self.blocks@.len(),
                forall|j: int| 0 <= j < k ==> (#[trigger] self.blocks@[j]).start != pc,
            decreases self.blocks@.len() - k,
        {
            if self.blocks[k].start == pc {
                return Some(k);
            }
            k = k + 1;
        }
        None
    }

    /// The block that runs first.
    pub fn primary(&self) -> (r: usize)
        requires
            self.wf(),
        ensures
            r < self.blocks@.len(),
            self.blocks@[r as int].start == self.start,
    {
        match self.index_of(self.start) {
            Some(k) => k,
            None => 0,
        }
    }

    /// The blocks that each block may be left for.
    pub fn successors(&self) -> (r: Vec<Vec<usize>>)
        requires
            self.wf(),
        ensures
            r@.len() == self.blocks@.len(),
            forall|a: int| 0 <= a < r@.len() ==> self.successors_of(a, #[trigger] r@[a]@),
    {
        let mut r: Vec<Vec<usize>> = Vec::new();
        let mut a: usize = 0;
        while a < self.blocks.len()
            invariant
                a <= self.blocks@.len(),
                r@.len() == a,
                self.wf(),
                forall|j: int| 0 <= j < a ==> self.successors_of(j, #[trigger] r@[j]@),
            decreases self.blocks@.len() - a,
        {
            let (first, second) = self.blocks[a].terminator.targets();
            let mut list: Vec<usize> = Vec::new();
            if let Some(target) = first {
                if let Some(index) = self.index_of(target) {
                    list.push(index);
                }
            }
            if let Some(target) = second {
                if let Some(index) = self.index_of(target) {
                    list.push(index);
                }
            }
            proof {
                let terminator = self.blocks@[a as int].terminator;
                assert forall|b: int| 0 <= b < self.blocks@.len() implies (flows(
                    self.blocks@,
                    a as int,
                    b,
                ) <==> #[trigger] names_index(list@, b)) by {
                    let pc = self.blocks@[b].start;
                    assert(terminator.reaches(pc) <==> first == Some(pc) || second == Some(pc));
                    if first == Some(pc) {
                        assert(self.has_block(pc));
                        assert(self.blocks@[list@[0] as int].start == pc);
                        assert(list@[0] == b);
                    } else if second == Some(pc) {
                        assert(self.has_block(pc));
                        let last = list@.len() - 1;
                        assert(self.blocks@[list@[last] as int].start == pc);
                        assert(list@[last] == b);
                    }
                    if names_index(list@, b) {
                        let k = choose|k: int| 0 <= k < list@.len() && #[trigger] list@[k] == b;
                        assert(self.blocks@[list@[k] as int].start == pc);
                    }
                }
            }
            r.push(list);
            a = a + 1;
        }
        r
    }

    /// The list names exactly the blocks that block `a` may be left for.
    pub open spec fn successors_of(&self, a: int, list: Seq<usize>) -> bool {
        &&& forall|k: int| 0 <= k < list.len() ==> #[trigger] list[k] < self.blocks@.len()
        &&& forall|b: int|
            0 <= b < self.blocks@.len() ==> (flows(self.blocks@, a, b) <==> #[trigger] names_index(
                list,
                b,
            ))
    }

    /// The blocks that each block may be entered from.
    pub fn predecessors(&self) -> (r: Vec<Vec<usize>>)
        requires
            self.wf(),
        ensures
            r@.len() == self.blocks@.len(),
            forall|b: int| 0 <= b < r@.len() ==> self.predecessors_of(b, #[trigger] r@[b]@),
    {
        let mut r: Vec<Vec<usize>> = Vec::new();
        let mut b: usize = 0;
        while b < self.blocks.len()
            invariant
                b <= self.blocks@.len(),
                r@.len() == b,
                forall|j: int| 0 <= j < b ==> self.predecessors_of(j, #[trigger] r@[j]@),
            decreases self.blocks@.len() - b,
        {
            let pc: u64 = self.blocks[b].start;
            let mut list: Vec<usize> = Vec::new();
            let mut a: usize = 0;
            while a < self.blocks.len()
                invariant
                    a <= self.blocks@.len(),
                    b < self.blocks@.len(),
                    pc == self.blocks@[b as int].start,
                    forall|k: int| 0 <= k < list@.len() ==> #[trigger] list@[k] < a,
                    forall|p: int|
                        0 <= p < a ==> (flows(self.blocks@, p, b as int)
                            <==> #[trigger] names_index(list@, p)),
                decreases self.blocks@.len() - a,
            {
                let (first, second) = self.blocks[a].terminator.targets();
                let ghost before = list@;
                let enters = first == Some(pc) || second == Some(pc);
                if enters {
                    list.push(a);
                }
                proof {
                    assert(self.blocks@[a as int].terminator.reaches(pc) == enters);
                    assert forall|p: int| 0 <= p < a + 1 implies (flows(
                        self.blocks@,
                        p,
                        b as int,
                    ) <==> #[trigger] names_index(list@, p)) by {
                        if p < a {
                            assert(names_index(list@, p) <==> names_index(before, p)) by {
                                if names_index(before, p) {
                                    let k = choose|k: int|
                                        0 <= k < before.len() && #[trigger] before[k] == p;
                                    assert(list@[k] == p);
                                }
                                if names_index(list@, p) {
                                    let k = choose|k: int|
                                        0 <= k < list@.len() && #[trigger] list@[k] == p;
                                    assert(before[k] == p);
                                }
                            }
                        } else {
                            if enters {
                                assert(list@[before.len() as int] == p);
                            }
                        }
                    }
                }
                a = a + 1;
            }
            r.push(list);
            b = b + 1;
        }
        r
    }

    /// The list names exactly the blocks that block `b` may be entered from.
    pub open spec fn predecessors_of(&self, b: int, list: Seq<usize>) -> bool {
        &&& forall|k: int| 0 <= k < list.len() ==> #[trigger] list[k] < self.blocks@.len()
        &&& forall|a: int|
            0 <= a < self.blocks@.len() ==> (flows(self.blocks@, a, b) <==> #[trigger] names_index(
                list,
                a,
            ))
    }

    /// The blocks whose flags come together from more than one place: the region's
    /// entry counts as one, so these are the blocks that another block enters.
    pub fn merged_flag_entries(&self) -> (r: Vec<bool>)
        requires
            self.wf(),
        ensures
            r@.len() == self.blocks@.len(),
            forall|b: int|
                0 <= b < r@.len() ==> #[trigger] r@[b] == self.is_entered(b),
    {
        let predecessors = self.predecessors();
        let mut r: Vec<bool> = Vec::new();
        let mut b: usize = 0;
        while b < self.blocks.len()
            invariant
                b <= self.blocks@.len(),
                r@.len() == b,
                predecessors@.len() == self.blocks@.len(),
                forall|b: int|
                    0 <= b < predecessors@.len() ==> self.predecessors_of(
                        b,
                        #[trigger] predecessors@[b]@,
                    ),
                forall|j: int| 0 <= j < b ==> #[trigger] r@[j] == self.is_entered(j),
            decreases self.blocks@.len() - b,
        {
            assert(self.predecessors_of(b as int, predecessors@[b as int]@));
            let merged = predecessors[b].len() != 0;
            proof {
                let list = predecessors@[b as int]@;
                if merged {
                    let a = list[0] as int;
                    assert(list[0] < self.blocks@.len());
                    assert(names_index(list, a));
                    assert(flows(self.blocks@, a, b as int));
                } else if self.is_entered(b as int) {
                    let a = choose|a: int|
                        0 <= a < self.blocks@.len() && #[trigger] flows(
                            self.blocks@,
                            a,
                            b as int,
                        );
                    assert(names_index(list, a));
                }
            }
            r.push(merged);
            b = b + 1;
        }
        r
    }

    pub open spec fn is_entered(&self, b: int) -> bool {
        exists|a: int| 0 <= a < self.blocks@.len() && #[trigger] flows(self.blocks@, a, b)
    }

    /// What the blocks read and write.
    pub fn effects(&self, host: HostAbi) -> (r: Vec<BlockEffects>)
        requires
            self.wf(),
        ensures
            r@.len() == self.blocks@.len(),
            forall|k: int|
                0 <= k < r@.len() ==> (#[trigger] r@[k]).reads@ == block_reads(
                    self.blocks@[k].instructions@,
                    host,
                ) && r@[k].writes@ == block_writes(self.blocks@[k].instructions@, host),
            forall|k: int, live: Set<StateItem>|
                0 <= k < r@.len() ==> #[trigger] r@[k].live_before_set(live) == live_before_block(
                    self.blocks@[k].instructions@,
                    host,
                    live,
                ),
    {
        let mut r: Vec<BlockEffects> = Vec::new();
        let mut k: usize = 0;
        while k < self.blocks.len()
            invariant
                k <= self.blocks@.len(),
                r@.len() == k,
                self.wf(),
                forall|j: int|
                    0 <= j < k ==> (#[trigger] r@[j]).reads@ == block_reads(
                        self.blocks@[j].instructions@,
                        host,
                    ) && r@[j].writes@ == block_writes(self.blocks@[j].instructions@, host),
                forall|j: int, live: Set<StateItem>|
                    0 <= j < k ==> #[trigger] r@[j].live_before_set(live) == live_before_block(
                        self.blocks@[j].instructions@,
                        host,
                        live,
                    ),
            decreases self.blocks@.len() - k,
        {
            assert(instructions_normalized(self.blocks@[k as int].instructions@));
            r.push(block_effects(self.blocks[k].instructions.as_slice(), host));
            k = k + 1;
        }
        r
    }

    pub open spec fn reads(&self, host: HostAbi, item: StateItem) -> bool {
        exists|k: int|
            0 <= k < self.blocks@.len() && block_reads(
                (#[trigger] self.blocks@[k]).instructions@,
                host,
            ).contains(item)
    }

    pub open spec fn writes(&self, host: HostAbi, item: StateItem) -> bool {
        exists|k: int|
            0 <= k < self.blocks@.len() && block_writes(
                (#[trigger] self.blocks@[k]).instructions@,
                host,
            ).contains(item)
    }

    /// What the region reads, and what it writes.
    pub fn region_effects(&self, host: HostAbi) -> (r: (StateSet, StateSet))
        requires
            self.wf(),
        ensures
            forall|item: StateItem| #[trigger]
                r.0@.contains(item) <==> self.reads(host, item),
            forall|item: StateItem| #[trigger]
                r.1@.contains(item) <==> self.writes(host, item),
    {
        let effects = self.effects(host);
        let mut read = StateSet::default();
        let mut written = StateSet::default();
        let mut k: usize = 0;
        while k < effects.len()
            invariant
                k <= effects@.len(),
                effects@.len() == self.blocks@.len(),
                forall|k: int|
                    0 <= k < effects@.len() ==> (#[trigger] effects@[k]).reads@ == block_reads(
                        self.blocks@[k].instructions@,
                        host,
                    ) && effects@[k].writes@ == block_writes(self.blocks@[k].instructions@, host),
                forall|item: StateItem| #[trigger]
                    read@.contains(item) <==> exists|j: int|
                        0 <= j < k && (#[trigger] effects@[j]).reads@.contains(item),
                forall|item: StateItem| #[trigger]
                    written@.contains(item) <==> exists|j: int|
                        0 <= j < k && (#[trigger] effects@[j]).writes@.contains(item),
            decreases effects@.len() - k,
        {
            let effect = effects[k];
            let ghost read_before = read@;
            let ghost written_before = written@;
            read = read.union(effect.reads);
            written = written.union(effect.writes);
            proof {
                assert forall|item: StateItem| #[trigger]
                    read@.contains(item) <==> exists|j: int|
                        0 <= j < k + 1 && (#[trigger] effects@[j]).reads@.contains(item) by {
                    if read_before.contains(item) {
                        let j = choose|j: int|
                            0 <= j < k && (#[trigger] effects@[j]).reads@.contains(item);
                        assert(effects@[j].reads@.contains(item));
                    }
                    if effect.reads@.contains(item) {
                        assert(effects@[k as int].reads@.contains(item));
                    }
                }
                assert forall|item: StateItem| #[trigger]
                    written@.contains(item) <==> exists|j: int|
                        0 <= j < k + 1 && (#[trigger] effects@[j]).writes@.contains(item) by {
                    if written_before.contains(item) {
                        let j = choose|j: int|
                            0 <= j < k && (#[trigger] effects@[j]).writes@.contains(item);
                        assert(effects@[j].writes@.contains(item));
                    }
                    if effect.writes@.contains(item) {
                        assert(effects@[k as int].writes@.contains(item));
                    }
                }
            }
            k = k + 1;
        }
        proof {
            assert forall|item: StateItem| #[trigger]
                read@.contains(item) <==> self.reads(host, item) by {
                if read@.contains(item) {
                    let j = choose|j: int|
                        0 <= j < effects@.len() && (#[trigger] effects@[j]).reads@.contains(item);
                    assert(block_reads(self.blocks@[j].instructions@, host).contains(item));
                }
                if self.reads(host, item) {
                    let j = choose|j: int|
                        0 <= j < self.blocks@.len() && block_reads(
                            (#[trigger] self.blocks@[j]).instructions@,
                            host,
                        ).contains(item);
                    assert(effects@[j].reads@.contains(item));
                }
            }
            assert forall|item: StateItem| #[trigger]
                written@.contains(item) <==> self.writes(host, item) by {
                if written@.contains(item) {
                    let j = choose|j: int|
                        0 <= j < effects@.len() && (#[trigger] effects@[j]).writes@.contains(item);
                    assert(block_writes(self.blocks@[j].instructions@, host).contains(item));
                }
                if self.writes(host, item) {
                    let j = choose|j: int|
                        0 <= j < self.blocks@.len() && block_writes(
                            (#[trigger] self.blocks@[j]).instructions@,
                            host,
                        ).contains(item);
                    assert(effects@[j].writes@.contains(item));
                }
            }
        }
        (read, written)
    }

    /// Some instruction leaves status in the host's floating-point unit.
    pub open spec fn has_native_fp(&self, host: HostAbi) -> bool {
        exists|b: int, k: int|
            0 <= b < self.blocks@.len() && 0 <= k < self.blocks@[b].instructions@.len()
                && leaves_status(#[trigger] self.blocks@[b].instructions@[k], host)
    }

    pub fn uses_native_fp(&self, host: HostAbi) -> (r: bool)
        ensures
            r == self.has_native_fp(host),
    {
        let mut b: usize = 0;
        while b < self.blocks.len()
            invariant
                b <= self.blocks@.len(),
                forall|x: int, y: int|
                    0 <= x < b && 0 <= y < self.blocks@[x].instructions@.len() ==> !leaves_status(
                        #[trigger] self.blocks@[x].instructions@[y],
                        host,
                    ),
            decreases self.blocks@.len() - b,
        {
            let mut k: usize = 0;
            while k < self.blocks[b].instructions.len()
                invariant
                    b < self.blocks@.len(),
                    k <= self.blocks@[b as int].instructions@.len(),
                    forall|y: int|
                        0 <= y < k ==> !leaves_status(
                            #[trigger] self.blocks@[b as int].instructions@[y],
                            host,
                        ),
                decreases self.blocks@[b as int].instructions@.len() - k,
            {
                if let A64Instruction::FpSimd(instruction) = self.blocks[b].instructions[k] {
                    if fp_lowering_disposition(instruction, host).uses_native_status() {
                        assert(leaves_status(
                            self.blocks@[b as int].instructions@[k as int],
                            host,
                        ));
                        return true;
                    }
                }
                k = k + 1;
            }
            b = b + 1;
        }
        false
    }
}

pub open spec fn leaves_status(instruction: A64Instruction, host: HostAbi) -> bool {
    match instruction {
        A64Instruction::FpSimd(instruction) => disposition(instruction, host) is GuardedNative,
        _ => false,
    }
}

pub open spec fn names_index(list: Seq<usize>, index: int) -> bool {
    exists|k: int| 0 <= k < list.len() && #[trigger] list[k] == index
}

} // verus!
