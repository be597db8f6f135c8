//! Where each register is loaded from guest state.

use vstd::prelude::*;
use super::dirty::{always_dirty, may_be_dirty};
use super::dominance::{
    are_dominators, common, common_dominator, is_path, law_dominators_lie_on_every_path, member,
    row_size, shaped,
};
use super::region::{names_index, Region, RegionBlock};
use crate::abi::HostAbi;
use crate::analysis::access::{block_reads, block_writes, live_before_block};
use crate::analysis::flow::{is_solution, liveness, used_within};
use crate::analysis::{BlockEffects, BlockLiveness, FlowBlock, StateItem, StateSet};

verus! {

/// A register of the guest.
#[derive(Clone, Copy, Debug, PartialEq, Eq, Structural)]
pub enum Register {
    X(u8),
    Sp,
    Vector(u8),
}

impl Register {
    pub open spec fn item(self) -> StateItem {
        match self {
            Register::X(index) => StateItem::X(index),
            Register::Sp => StateItem::Sp,
            Register::Vector(index) => StateItem::Vector(index),
        }
    }

    pub open spec fn valid(self) -> bool {
        match self {
            Register::X(index) => index < 31,
            Register::Sp => true,
            Register::Vector(index) => index < 32,
        }
    }
}

fn set_has(set: &StateSet, register: Register) -> (r: bool)
    requires
        register.valid(),
    ensures
        r == set@.contains(register.item()),
{
    match register {
        Register::X(index) => set.integer.x[index as usize],
        Register::Sp => set.integer.sp,
        Register::Vector(index) => set.vector[index as usize],
    }
}

impl Region {
    /// The blocks as the liveness analysis sees them: an edge that leaves the
    /// region observes everything.
    pub open spec fn flow_of(&self, host: HostAbi, blocks: Seq<FlowBlock>) -> bool {
        &&& blocks.len() == self.blocks@.len()
        &&& forall|k: int|
            0 <= k < blocks.len() ==> {
                &&& (#[trigger] blocks[k]).effects.reads@ == block_reads(
                    self.blocks@[k].instructions@,
                    host,
                )
                &&& blocks[k].effects.writes@ == block_writes(self.blocks@[k].instructions@, host)
                &&& forall|live: Set<StateItem>| #[trigger]
                    blocks[k].effects.live_before_set(live) == live_before_block(
                        self.blocks@[k].instructions@,
                        host,
                        live,
                    )
                &&& self.successors_of(k, blocks[k].successors@)
                &&& blocks[k].exit_live@ == if self.leaves_region(k) {
                    StateSet::everything()
                } else {
                    Set::<StateItem>::empty()
                }
            }
    }

    /// The block may be left for an address outside the region.
    pub open spec fn leaves_region(&self, k: int) -> bool {
        let terminator = self.blocks@[k].terminator;
        ||| !(terminator is Direct) && !(terminator is Conditional)
        ||| exists|target: u64| #[trigger] terminator.reaches(target) && !self.has_block(target)
    }

    fn exits(&self, k: usize) -> (r: bool)
        requires
            k < self.blocks@.len(),
        ensures
            r == self.leaves_region(k as int),
    {
        let terminator = self.blocks[k].terminator;
        let (first, second) = terminator.targets();
        match first {
            None => true,
            Some(target) => {
                if self.index_of(target).is_none() {
                    assert(terminator.reaches(target));
                    return true;
                }
                assert(self.has_block(target));
                if let Some(other) = second {
                    if self.index_of(other).is_none() {
                        assert(terminator.reaches(other));
                        return true;
                    }
                    assert(self.has_block(other));
                }
                proof {
                    assert forall|pc: u64| #[trigger] terminator.reaches(pc) implies self.has_block(
                        pc,
                    ) by {}
                }
                false
            },
        }
    }

    /// What is live into and out of each block. The region's way out observes all
    /// of the guest's state.
    pub fn region_liveness(&self, host: HostAbi) -> (r: Vec<BlockLiveness>)
        requires
            self.wf(),
        ensures
            r@.len() == self.blocks@.len(),
            exists|blocks: Seq<FlowBlock>| #[trigger]
                self.flow_of(host, blocks) && is_solution(blocks, r@) && forall|index: int, item:
                    StateItem|
                    0 <= index < blocks.len() ==> (#[trigger] r@[index].live_in@.contains(item)
                        <==> exists|steps: nat| used_within(blocks, index, item, steps)),
    {
        let effects = self.effects(host);
        let successors = self.successors();
        let mut blocks: Vec<FlowBlock> = Vec::new();
        let mut k: usize = 0;
        while k < self.blocks.len()
            invariant
                k <= self.blocks@.len(),
                blocks@.len() == k,
                effects@.len() == self.blocks@.len(),
                successors@.len() == self.blocks@.len(),
                self.wf(),
                forall|j: int|
                    0 <= j < effects@.len() ==> (#[trigger] effects@[j]).reads@ == block_reads(
                        self.blocks@[j].instructions@,
                        host,
                    ) && effects@[j].writes@ == block_writes(self.blocks@[j].instructions@, host),
                forall|j: int, live: Set<StateItem>|
                    0 <= j < effects@.len() ==> #[trigger] effects@[j].live_before_set(live)
                        == live_before_block(self.blocks@[j].instructions@, host, live),
                forall|j: int|
                    0 <= j < successors@.len() ==> self.successors_of(
                        j,
                        #[trigger] successors@[j]@,
                    ),
                forall|j: int|
                    0 <= j < k ==> {
                        &&& (#[trigger] blocks@[j]).effects.reads@ == block_reads(
                            self.blocks@[j].instructions@,
                            host,
                        )
                        &&& blocks@[j].effects.writes@ == block_writes(
                            self.blocks@[j].instructions@,
                            host,
                        )
                        &&& forall|live: Set<StateItem>| #[trigger]
                            blocks@[j].effects.live_before_set(live) == live_before_block(
                                self.blocks@[j].instructions@,
                                host,
                                live,
                            )
                        &&& self.successors_of(j, blocks@[j].successors@)
                        &&& blocks@[j].exit_live@ == if self.leaves_region(j) {
                            StateSet::everything()
                        } else {
                            Set::<StateItem>::empty()
                        }
                    },
            decreases self.blocks@.len() - k,
        {
            let exit_live = if self.exits(k) {
                StateSet::all()
            } else {
                StateSet::default()
            };
            assert(self.successors_of(k as int, successors@[k as int]@));
            blocks.push(
                FlowBlock {
                    effects: effects[k],
                    successors: successors[k].as_slice(),
                    exit_live,
                },
            );
            k = k + 1;
        }
        proof {
            assert forall|index: int, edge: int|
                0 <= index < blocks@.len() && 0 <= edge
                    < blocks@[index].successors@.len() implies #[trigger] blocks@[index].successors@[
                edge
            ] < blocks@.len() by {
                assert(self.successors_of(index, blocks@[index].successors@));
            }
            assert(self.flow_of(host, blocks@));
        }
        let r = liveness(blocks.as_slice());
        proof {
            assert(blocks@.len() == self.blocks@.len());
        }
        r
    }
}

/// Where each register is loaded: at the start of a block, or not at all.
pub struct RegisterLoadBlocks {
    pub integer: Vec<Option<usize>>,
    pub sp: Option<usize>,
    pub vector: Vec<Option<usize>>,
}

/// What the choice of a register's load rests on.
pub struct LoadFacts {
    pub primary: usize,
    pub dominators: Vec<Vec<bool>>,
    pub written: StateSet,
    pub live_entries: StateSet,
    pub conditionally_dirty: StateSet,
    pub effects: Vec<BlockEffects>,
}

impl LoadFacts {
    pub open spec fn wf(&self) -> bool {
        &&& shaped(self.dominators@, self.effects@.len() as int)
        &&& self.primary < self.effects@.len()
    }

    /// The list holds exactly the blocks that read the register, in order.
    pub open spec fn uses(&self, register: Register, list: Seq<usize>) -> bool {
        &&& forall|k: int| 0 <= k < list.len() ==> #[trigger] list[k] < self.effects@.len()
        &&& forall|b: int|
            0 <= b < self.effects@.len() ==> ((#[trigger] self.effects@[b]).reads@.contains(
                register.item(),
            ) <==> names_index(list, b))
    }

    /// A register that no block reads, and that no block finds changed on one path
    /// only, is not loaded. One that the region writes is loaded at its start where
    /// it is live there. Any other is loaded where all of its uses are dominated.
    pub open spec fn loads_at(&self, register: Register, r: Option<usize>) -> bool {
        exists|list: Seq<usize>| #[trigger]
            self.uses(register, list) && if list.len() == 0 && !self.conditionally_dirty@.contains(
                register.item(),
            ) {
                r is None
            } else if self.written@.contains(register.item()) {
                r == if self.live_entries@.contains(register.item()) {
                    Some(self.primary)
                } else {
                    None
                }
            } else {
                match r {
                    Some(c) => {
                        &&& list.len() > 0
                        &&& c < self.effects@.len()
                        &&& common(self.dominators@, list, c as int)
                        &&& forall|other: int|
                            0 <= other < self.effects@.len() && #[trigger] common(
                                self.dominators@,
                                list,
                                other,
                            ) ==> row_size(self.dominators@[other]@) <= row_size(
                                self.dominators@[c as int]@,
                            )
                    },
                    None => list.len() == 0 || forall|other: int|
                        0 <= other < self.effects@.len() ==> !#[trigger] common(
                            self.dominators@,
                            list,
                            other,
                        ),
                }
            }
    }

    fn load_block(&self, register: Register) -> (r: Option<usize>)
        requires
            self.wf(),
            register.valid(),
        ensures
            self.loads_at(register, r),
    {
        let mut list: Vec<usize> = Vec::new();
        let mut b: usize = 0;
        while b < self.effects.len()
            invariant
                b <= self.effects@.len(),
                register.valid(),
                forall|k: int| 0 <= k < list@.len() ==> #[trigger] list@[k] < b,
                forall|x: int|
                    0 <= x < b ==> ((#[trigger] self.effects@[x]).reads@.contains(register.item())
                        <==> names_index(list@, x)),
            decreases self.effects@.len() - b,
        {
            let ghost before = list@;
            let read = set_has(&self.effects[b].reads, register);
            if read {
                list.push(b);
            }
            proof {
                assert forall|x: int| 0 <= x < b + 1 implies ((
                #[trigger] self.effects@[x]).reads@.contains(register.item()) <==> names_index(
                    list@,
                    x,
                )) by {
                    if x < b {
                        assert(names_index(list@, x) <==> names_index(before, x)) by {
                            if names_index(before, x) {
                                let k = choose|k: int|
                                    0 <= k < before.len() && #[trigger] before[k] == x;
                                assert(list@[k] == x);
                            }
                            if names_index(list@, x) {
                                let k = choose|k: int|
                                    0 <= k < list@.len() && #[trigger] list@[k] == x;
                                assert(before[k] == x);
                            }
                        }
                    } else if read {
                        assert(list@[before.len() as int] == x);
                    }
                }
            }
            b = b + 1;
        }
        assert(self.uses(register, list@));
        if list.len() == 0 && !set_has(&self.conditionally_dirty, register) {
            return None;
        }
        if set_has(&self.written, register) {
            return if set_has(&self.live_entries, register) {
                Some(self.primary)
            } else {
                None
            };
        }
        common_dominator(&list, &self.dominators)
    }
}

impl Region {
    /// The facts describe this region.
    pub open spec fn load_facts_of(&self, host: HostAbi, facts: LoadFacts) -> bool {
        &&& facts.wf()
        &&& self.blocks@[facts.primary as int].start == self.start
        &&& facts.effects@.len() == self.blocks@.len()
        &&& forall|k: int|
            0 <= k < facts.effects@.len() ==> (#[trigger] facts.effects@[k]).reads@ == block_reads(
                self.blocks@[k].instructions@,
                host,
            )
        &&& exists|primary: int|
            0 <= primary < self.blocks@.len() && self.blocks@[primary].start == self.start
                && #[trigger] are_dominators(self.blocks@, facts.dominators@, primary)
        &&& forall|item: StateItem| #[trigger]
            facts.written@.contains(item) <==> self.writes(host, item)
        &&& exists|live: Seq<BlockLiveness>, blocks: Seq<FlowBlock>|
            #![trigger self.flow_of(host, blocks), is_solution(blocks, live)]
            self.flow_of(host, blocks) && is_solution(blocks, live) && forall|item: StateItem|
                #[trigger]
                facts.live_entries@.contains(item) <==> exists|k: int|
                    0 <= k < live.len() && (#[trigger] live[k]).live_in@.contains(item)
        &&& self.conditional(host, facts.primary as int, facts.conditionally_dirty)
    }

    /// The set holds the registers that are changed on entry to some block on one
    /// path and not on another.
    pub open spec fn conditional(&self, host: HostAbi, primary: int, set: StateSet) -> bool {
        exists|writes: Seq<StateSet>, must: Seq<StateSet>|
            self.are_writes(host, writes) && #[trigger] always_dirty(
                self.blocks@,
                must,
                writes,
                primary,
            ) && forall|item: StateItem| #[trigger]
                set@.contains(item) <==> exists|b: int|
                    0 <= b < self.blocks@.len() && #[trigger] may_be_dirty(
                        self.blocks@,
                        writes,
                        b,
                        item,
                    ) && !must[b]@.contains(item)
    }

    /// Collects what the choice of the loads rests on.
    pub fn load_facts(&self, host: HostAbi) -> (r: LoadFacts)
        requires
            self.wf(),
        ensures
            self.load_facts_of(host, r),
    {
        let primary: usize = self.primary();
        let dominators = self.block_dominators();
        let (_, written) = self.region_effects(host);
        let live = self.region_liveness(host);
        let writes = self.block_dirty_states(host);
        let may = self.dirty_from(&writes);
        let conditionally_dirty = self.conditionally_dirty_at_entry(&writes, &may, primary);
        let effects = self.effects(host);
        let mut live_entries = StateSet::default();
        let mut k: usize = 0;
        while k < live.len()
            invariant
                k <= live@.len(),
                forall|item: StateItem| #[trigger]
                    live_entries@.contains(item) <==> exists|j: int|
                        0 <= j < k && (#[trigger] live@[j]).live_in@.contains(item),
            decreases live@.len() - k,
        {
            let ghost before = live_entries@;
            live_entries = live_entries.union(live[k].live_in);
            proof {
                assert forall|item: StateItem| #[trigger]
                    live_entries@.contains(item) <==> exists|j: int|
                        0 <= j < k + 1 && (#[trigger] live@[j]).live_in@.contains(item) by {
                    if before.contains(item) {
                        let j = choose|j: int|
                            0 <= j < k && (#[trigger] live@[j]).live_in@.contains(item);
                        assert(live@[j].live_in@.contains(item));
                    }
                    if live@[k as int].live_in@.contains(item) {
                        assert(live@[k as int].live_in@.contains(item));
                    }
                }
            }
            k = k + 1;
        }
        proof {
            let must = choose|must: Seq<StateSet>| #[trigger]
                always_dirty(self.blocks@, must, writes@, primary as int) && forall|item: StateItem|
                    #[trigger]
                    conditionally_dirty@.contains(item) <==> exists|b: int|
                        0 <= b < may@.len() && (#[trigger] may@[b])@.contains(item)
                            && !must[b]@.contains(item);
            assert forall|item: StateItem| #[trigger]
                conditionally_dirty@.contains(item) <==> exists|b: int|
                    0 <= b < self.blocks@.len() && #[trigger] may_be_dirty(
                        self.blocks@,
                        writes@,
                        b,
                        item,
                    ) && !must[b]@.contains(item) by {
                if conditionally_dirty@.contains(item) {
                    let b = choose|b: int|
                        0 <= b < may@.len() && (#[trigger] may@[b])@.contains(item)
                            && !must[b]@.contains(item);
                    assert(may_be_dirty(self.blocks@, writes@, b, item));
                }
                if exists|b: int|
                    0 <= b < self.blocks@.len() && #[trigger] may_be_dirty(
                        self.blocks@,
                        writes@,
                        b,
                        item,
                    ) && !must[b]@.contains(item) {
                    let b = choose|b: int|
                        0 <= b < self.blocks@.len() && #[trigger] may_be_dirty(
                            self.blocks@,
                            writes@,
                            b,
                            item,
                        ) && !must[b]@.contains(item);
                    assert(may@[b]@.contains(item));
                }
            }
            assert(always_dirty(self.blocks@, must, writes@, primary as int));
            assert(self.conditional(host, primary as int, conditionally_dirty));
            let blocks = choose|blocks: Seq<FlowBlock>| #[trigger]
                self.flow_of(host, blocks) && is_solution(blocks, live@);
            assert(self.flow_of(host, blocks) && is_solution(blocks, live@));
        }
        let facts = LoadFacts {
            primary,
            dominators,
            written,
            live_entries,
            conditionally_dirty,
            effects,
        };
        proof {
            assert(facts.wf());
            assert(exists|primary: int|
            0 <= primary < self.blocks@.len() && self.blocks@[primary].start == self.start
                && #[trigger] are_dominators(self.blocks@, facts.dominators@, primary));
            assert(forall|item: StateItem| #[trigger]
            facts.written@.contains(item) <==> self.writes(host, item));
            assert(exists|live: Seq<BlockLiveness>, blocks: Seq<FlowBlock>|
            #![trigger self.flow_of(host, blocks), is_solution(blocks, live)]
            self.flow_of(host, blocks) && is_solution(blocks, live) && forall|item: StateItem|
                #[trigger]
                facts.live_entries@.contains(item) <==> exists|k: int|
                    0 <= k < live.len() && (#[trigger] live[k]).live_in@.contains(item));
            assert(self.conditional(host, facts.primary as int, facts.conditionally_dirty));
        }
        facts
    }

    /// Chooses where each register is loaded.
    pub fn register_load_blocks(&self, host: HostAbi) -> (r: RegisterLoadBlocks)
        requires
            self.wf(),
        ensures
            exists|facts: LoadFacts| #[trigger] self.load_facts_of(host, facts) && loads_follow(facts, r),
    {
        let facts = self.load_facts(host);
        let mut integer: Vec<Option<usize>> = Vec::new();
        let mut index: u8 = 0;
        while index < 31
            invariant
                index <= 31,
                integer@.len() == index,
                facts.wf(),
                forall|k: int|
                    0 <= k < index ==> facts.loads_at(Register::X(k as u8), #[trigger] integer@[k]),
            decreases 31 - index,
        {
            integer.push(facts.load_block(Register::X(index)));
            index = index + 1;
        }
        let sp = facts.load_block(Register::Sp);
        let mut vector: Vec<Option<usize>> = Vec::new();
        let mut index: u8 = 0;
        while index < 32
            invariant
                index <= 32,
                vector@.len() == index,
                facts.wf(),
                forall|k: int|
                    0 <= k < index ==> facts.loads_at(
                        Register::Vector(k as u8),
                        #[trigger] vector@[k],
                    ),
            decreases 32 - index,
        {
            vector.push(facts.load_block(Register::Vector(index)));
            index = index + 1;
        }
        let r = RegisterLoadBlocks { integer, sp, vector };
        proof {
            assert(self.load_facts_of(host, facts));
            assert(loads_follow(facts, r));
        }
        r
    }
}

/// Every register is loaded where the facts say.
pub open spec fn loads_follow(facts: LoadFacts, loads: RegisterLoadBlocks) -> bool {
    &&& loads.integer@.len() == 31
    &&& forall|k: int|
        0 <= k < 31 ==> facts.loads_at(Register::X(k as u8), #[trigger] loads.integer@[k])
    &&& facts.loads_at(Register::Sp, loads.sp)
    &&& loads.vector@.len() == 32
    &&& forall|k: int|
        0 <= k < 32 ==> facts.loads_at(Register::Vector(k as u8), #[trigger] loads.vector@[k])
}

/// A register that is only read is loaded before every use: whatever path leads
/// from the region's first block to a use goes through the block that loads it.
pub proof fn law_loads_come_before_uses(
    blocks: Seq<RegionBlock>,
    dominators: Seq<Vec<bool>>,
    primary: int,
    uses: Seq<usize>,
    load: int,
    use_index: int,
    path: Seq<int>,
)
    requires
        are_dominators(blocks, dominators, primary),
        common(dominators, uses, load),
        0 <= load < blocks.len(),
        0 <= use_index < uses.len(),
        is_path(blocks, path),
        path[0] == primary,
        path.last() == uses[use_index],
    ensures
        path.contains(load),
{
    assert(member(dominators, uses[use_index] as int, load));
    law_dominators_lie_on_every_path(blocks, dominators, primary, path, load);
}

/// Some block of the region reads the register from what it finds.
pub open spec fn is_read(region: Region, host: HostAbi, register: Register) -> bool {
    exists|b: int|
        0 <= b < region.blocks@.len() && block_reads(
            (#[trigger] region.blocks@[b]).instructions@,
            host,
        ).contains(register.item())
}

/// A register that is loaded is loaded on every way from the start of the region to a block
/// that reads it, and one that the region writes is loaded at the very start. A register that
/// is read, and that the region writes while it is live, is loaded; one that is neither read
/// nor changed on some ways only is not.
pub proof fn law_registers_are_loaded_before_they_are_read(
    region: Region,
    host: HostAbi,
    facts: LoadFacts,
    register: Register,
    load: Option<usize>,
    path: Seq<int>,
)
    requires
        region.wf(),
        region.load_facts_of(host, facts),
        facts.loads_at(register, load),
        is_path(region.blocks@, path),
        region.blocks@[path[0]].start == region.start,
        block_reads(region.blocks@[path.last()].instructions@, host).contains(register.item()),
    ensures
        load is Some ==> path.contains(load->0 as int),
        load is Some && region.writes(host, register.item()) ==> load->0 == path[0],
        region.writes(host, register.item()) && facts.live_entries@.contains(register.item())
            ==> load is Some,
{
    let list = choose|list: Seq<usize>| #[trigger]
        facts.uses(register, list) && load_chosen(facts, register, list, load);
    let primary = choose|primary: int|
        0 <= primary < region.blocks@.len() && region.blocks@[primary].start == region.start
            && #[trigger] are_dominators(region.blocks@, facts.dominators@, primary);
    let b = path.last();
    assert(0 <= path[path.len() - 1] < region.blocks@.len());
    assert(0 <= path[0] < region.blocks@.len());
    assert(facts.effects@[b].reads@.contains(register.item()));
    assert(names_index(list, b));
    let k = choose|k: int| 0 <= k < list.len() && #[trigger] list[k] == b;
    if load is Some {
        if region.writes(host, register.item()) {
            assert(load->0 == facts.primary);
        } else {
            law_loads_come_before_uses(
                region.blocks@,
                facts.dominators@,
                primary,
                list,
                load->0 as int,
                k,
                path,
            );
        }
    }
}

/// Where a register with these uses is loaded.
spec fn load_chosen(
    facts: LoadFacts,
    register: Register,
    list: Seq<usize>,
    load: Option<usize>,
) -> bool {
    if list.len() == 0 && !facts.conditionally_dirty@.contains(register.item()) {
        load is None
    } else if facts.written@.contains(register.item()) {
        load == if facts.live_entries@.contains(register.item()) {
            Some(facts.primary)
        } else {
            None
        }
    } else {
        load is Some ==> list.len() > 0 && load->0 < facts.effects@.len() && common(
            facts.dominators@,
            list,
            load->0 as int,
        )
    }
}

/// A register that no block reads, and that is changed on all ways or on none, is not loaded.
pub proof fn law_unread_registers_are_not_loaded(
    region: Region,
    host: HostAbi,
    facts: LoadFacts,
    register: Register,
    load: Option<usize>,
)
    requires
        region.load_facts_of(host, facts),
        facts.loads_at(register, load),
        !is_read(region, host, register),
        !facts.conditionally_dirty@.contains(register.item()),
    ensures
        load is None,
{
    let list = choose|list: Seq<usize>| #[trigger]
        facts.uses(register, list) && load_chosen(facts, register, list, load);
    if list.len() > 0 {
        let b = list[0] as int;
        assert(b < facts.effects@.len());
        assert(names_index(list, b));
        assert(facts.effects@[b].reads@.contains(register.item()));
        assert(block_reads(region.blocks@[b].instructions@, host).contains(register.item()));
    }
}

} // verus!
