//! The plan of a whole region.

use vstd::prelude::*;
use super::dirty::{always_dirty, dirtied, may_be_dirty};
use super::endings::{known_exits, pair_cells, CellQueue, Ending, EntryCell, TranslationFault};
use super::error::DirectJitError;
use super::loads::{loads_follow, LoadFacts, Register, RegisterLoadBlocks};
use super::region::{flows, names_index, BlockTerminator, Region, RegionBlock};
use super::registers::{
    block_loads, load_block_registers, load_of, RegisterChoice, RegisterTransfer,
};
use crate::abi::HostAbi;
use crate::analysis::access::{block_reads, block_writes};
use crate::analysis::{StateItem, StateSet};
use crate::decode::A64Instruction;
use crate::simd::emit::{emit_fp_simd, plan_fault, plan_fits};
use crate::simd::plan::{is_fault, plannable, FpSimdPlan};

verus! {

/// Who lowers an instruction.
#[derive(Debug, PartialEq, Eq)]
pub enum Route {
    /// Nobody: it does nothing, or the ending of the block does it.
    Nothing,
    Integer,
    Memory,
    System,
    FpSimd(FpSimdPlan),
}

/// Why a region has no plan.
#[derive(Debug, PartialEq, Eq)]
pub enum TranslateError {
    Fault(TranslationFault),
    /// The hotness counter of the region is not aligned.
    Unaligned,
    Loads { block: usize, error: DirectJitError },
    /// The instruction is recognized, but cannot be compiled.
    Unsupported { block: usize, instruction: usize },
    Instruction { block: usize, instruction: usize, error: DirectJitError },
}

pub open spec fn route_fits(instruction: A64Instruction, host: HostAbi, route: Route) -> bool {
    match instruction {
        A64Instruction::Integer(_) => route is Integer,
        A64Instruction::Memory(_) => route is Memory,
        A64Instruction::System(_) => route is System,
        A64Instruction::FpSimd(instruction) => (route matches Route::FpSimd(plan) && plan_fault(
            instruction,
            host,
        ) is None && plan_fits(instruction, host, plan)),
        A64Instruction::Control(_) => route is Nothing,
        A64Instruction::RecognizedUnsupported => false,
    }
}

/// The decoder's guarantees hold of every vector instruction.
pub open spec fn region_plannable(region: Region) -> bool {
    forall|b: int, k: int|
        0 <= b < region.blocks@.len() && 0 <= k < region.blocks@[b].instructions@.len()
            ==> instruction_plannable(#[trigger] region.blocks@[b].instructions@[k])
}

pub open spec fn instruction_plannable(instruction: A64Instruction) -> bool {
    instruction matches A64Instruction::FpSimd(instruction) ==> plannable(instruction)
}

/// The instructions that are lowered: all but an unsupported one at the end.
pub open spec fn lowered_count(block: RegionBlock) -> int {
    if block.terminator is Unsupported && block.instructions@.len() > 0 {
        block.instructions@.len() - 1
    } else {
        block.instructions@.len() as int
    }
}

pub open spec fn routes_fit(block: RegionBlock, host: HostAbi, routes: Seq<Route>) -> bool {
    &&& routes.len() == lowered_count(block)
    &&& forall|k: int|
        0 <= k < routes.len() ==> route_fits(block.instructions@[k], host, #[trigger] routes[k])
}

/// The plan of a block.
pub struct BlockPlan {
    /// Registers that are loaded at its start. Those of the first block are loaded
    /// before it.
    pub loads: Vec<RegisterTransfer>,
    /// The flags arrive packed, from more than one place.
    pub merges_flags: bool,
    /// Registers that may have changed before it.
    pub dirty: StateSet,
    pub routes: Vec<Route>,
    pub ending: Ending,
}

/// Where a region counts its runs, to be compiled better when they are many.
#[derive(Clone, Copy, Debug, PartialEq, Eq, Structural)]
pub struct Promotion {
    pub hotness_address: usize,
    pub node_address: usize,
}

/// The count of the runs is not where it can be counted in one step.
pub open spec fn misplaced(promotion: Option<Promotion>) -> bool {
    promotion matches Some(place) && place.hotness_address % 4 != 0
}

/// The plan of a region.
pub struct Translation {
    /// The host's floating-point unit is set up before the first block.
    pub native_fp: bool,
    pub direct_memory: bool,
    /// The floating-point status has a native value.
    pub status: bool,
    pub declared: RegisterChoice,
    pub loads: RegisterLoadBlocks,
    pub entry_loads: Vec<RegisterTransfer>,
    pub promotion: Option<Promotion>,
    pub blocks: Vec<BlockPlan>,
}

fn route(instruction: &A64Instruction, host: HostAbi) -> (r: Result<Route, Option<DirectJitError>>)
    requires
        instruction_plannable(*instruction),
    ensures
        match r {
            Ok(route) => routable(*instruction, host) && route_fits(*instruction, host, route),
            Err(None) => instruction is RecognizedUnsupported,
            Err(Some(error)) => (*instruction matches A64Instruction::FpSimd(inner) && is_fault(
                error,
                plan_fault(inner, host),
            )),
        },
{
    match instruction {
        A64Instruction::Integer(_) => Ok(Route::Integer),
        A64Instruction::Memory(_) => Ok(Route::Memory),
        A64Instruction::System(_) => Ok(Route::System),
        A64Instruction::FpSimd(instruction) => match emit_fp_simd(*instruction, host) {
            Ok(plan) => Ok(Route::FpSimd(plan)),
            Err(error) => Err(Some(error)),
        },
        A64Instruction::Control(_) => Ok(Route::Nothing),
        A64Instruction::RecognizedUnsupported => Err(None),
    }
}

/// The instruction has a plan.
pub open spec fn routable(instruction: A64Instruction, host: HostAbi) -> bool {
    &&& !(instruction is RecognizedUnsupported)
    &&& instruction matches A64Instruction::FpSimd(inner) ==> plan_fault(inner, host) is None
}

/// The first `count` instructions of the block have plans.
pub open spec fn routes_until(block: RegionBlock, host: HostAbi, count: int) -> bool {
    forall|k: int| 0 <= k < count ==> routable(#[trigger] block.instructions@[k], host)
}

/// This instruction of block `b` is the first that stands in the way of a plan.
pub open spec fn instruction_fault(
    region: Region,
    host: HostAbi,
    b: int,
    error: TranslateError,
) -> bool {
    match error {
        TranslateError::Unsupported { block, instruction } => {
            &&& block == b
            &&& instruction < lowered_count(region.blocks@[b])
            &&& routes_until(region.blocks@[b], host, instruction as int)
            &&& region.blocks@[b].instructions@[instruction as int] is RecognizedUnsupported
        },
        TranslateError::Instruction { block, instruction, error } => {
            &&& block == b
            &&& instruction < lowered_count(region.blocks@[b])
            &&& routes_until(region.blocks@[b], host, instruction as int)
            &&& region.blocks@[b].instructions@[instruction as int] matches A64Instruction::FpSimd(
                inner,
            )
            &&& is_fault(error, plan_fault(inner, host))
        },
        _ => false,
    }
}

impl Region {
    fn block_routes(&self, index: usize, host: HostAbi) -> (r: Result<Vec<Route>, TranslateError>)
        requires
            index < self.blocks@.len(),
            region_plannable(*self),
        ensures
            match r {
                Ok(routes) => {
                    &&& routes_fit(self.blocks@[index as int], host, routes@)
                    &&& routes_until(
                        self.blocks@[index as int],
                        host,
                        lowered_count(self.blocks@[index as int]),
                    )
                },
                Err(error) => instruction_fault(*self, host, index as int, error),
            },
    {
        let block = &self.blocks[index];
        let count: usize = block.instructions.len();
        let unsupported: bool = matches!(block.terminator, BlockTerminator::Unsupported);
        let lowered: usize = if unsupported && count > 0 {
            count - 1
        } else {
            count
        };
        let mut routes: Vec<Route> = Vec::new();
        let mut k: usize = 0;
        while k < lowered
            invariant
                k <= lowered,
                lowered <= block.instructions@.len(),
                index < self.blocks@.len(),
                block == self.blocks@[index as int],
                lowered == lowered_count(*block),
                region_plannable(*self),
                routes@.len() == k,
                routes_until(*block, host, k as int),
                forall|j: int|
                    0 <= j < k ==> route_fits(block.instructions@[j], host, #[trigger] routes@[j]),
            decreases lowered - k,
        {
            proof {
                assert(instruction_plannable(
                    self.blocks@[index as int].instructions@[k as int],
                ));
            }
            match route(&block.instructions[k], host) {
                Ok(route) => {
                    routes.push(route);
                },
                Err(None) => {
                    return Err(TranslateError::Unsupported { block: index, instruction: k });
                },
                Err(Some(error)) => {
                    return Err(TranslateError::Instruction { block: index, instruction: k, error });
                },
            }
            k = k + 1;
        }
        Ok(routes)
    }

    /// The plan of block `k`, whose exits go through these cells.
    pub open spec fn block_fits(
        &self,
        host: HostAbi,
        loads: RegisterLoadBlocks,
        k: int,
        cells: Seq<EntryCell>,
        plan: BlockPlan,
    ) -> bool {
        let block = self.blocks@[k];
        &&& if block.start == self.start {
            plan.loads@.len() == 0
        } else {
            block_loads(plan.loads@, loads, k as usize)
        }
        &&& routes_fit(block, host, plan.routes@)
        &&& self.ends_well(block)
        &&& plan.ending == self.ending_of(block, cells)
    }

    /// The cells are those of the region's exits, in order.
    pub open spec fn cells_fit(&self, cells: Seq<EntryCell>) -> bool {
        let n = self.blocks@.len() as int;
        self.fits(self.exits_before(n), cells) && self.exits_before(n).len() == cells.len()
    }

    /// The plan is that of the region.
    pub open spec fn translation_fits(
        &self,
        host: HostAbi,
        cells: Seq<EntryCell>,
        plan: Translation,
    ) -> bool {
        let n = self.blocks@.len() as int;
        &&& plan.native_fp == self.has_native_fp(host)
        &&& plan.status == (self.reads(host, StateItem::Fpsr) || self.writes(host, StateItem::Fpsr))
        &&& plan.declared.wf()
        &&& forall|register: Register|
            register.valid() ==> (#[trigger] plan.declared.names(register) <==> self.reads(
                host,
                register.item(),
            ) || self.writes(host, register.item()))
        &&& exists|facts: LoadFacts| #[trigger]
            self.load_facts_of(host, facts) && loads_follow(facts, plan.loads)
        &&& exists|primary: int|
            0 <= primary < n && (#[trigger] self.blocks@[primary]).start == self.start
                && block_loads(plan.entry_loads@, plan.loads, primary as usize)
        &&& plan.blocks@.len() == n
        &&& self.cells_fit(cells)
        &&& forall|k: int|
            0 <= k < n ==> self.block_fits(
                host,
                plan.loads,
                k,
                cells.skip(self.exits_before(k).len() as int),
                #[trigger] plan.blocks@[k],
            )
        &&& forall|k: int|
            0 <= k < n ==> (#[trigger] plan.blocks@[k]).merges_flags == self.is_entered(k)
        &&& exists|writes: Seq<StateSet>| #[trigger]
            self.are_writes(host, writes) && forall|k: int, item: StateItem|
                0 <= k < n ==> (#[trigger] plan.blocks@[k].dirty@.contains(item) <==> may_be_dirty(
                    self.blocks@,
                    writes,
                    k,
                    item,
                ))
    }

    /// Why block `k` has no plan, whose exits go through these cells: its instructions
    /// come first, then its ending.
    pub open spec fn block_fault(
        &self,
        host: HostAbi,
        k: int,
        cells: Seq<EntryCell>,
        error: TranslateError,
    ) -> bool {
        let block = self.blocks@[k];
        match error {
            TranslateError::Fault(fault) => {
                &&& routes_until(block, host, lowered_count(block))
                &&& match fault {
                    TranslationFault::NotConditional => block.terminator is Conditional
                        && !self.ends_well(block),
                    TranslationFault::NotRegisterBranch => block.terminator is Indirect
                        && !self.ends_well(block),
                    _ => self.misfit(self.block_exits(block), cells, fault),
                }
            },
            _ => instruction_fault(*self, host, k, error),
        }
    }

    /// The first `count` blocks have plans.
    pub open spec fn blocks_pass(&self, host: HostAbi, cells: Seq<EntryCell>, count: int) -> bool {
        &&& self.fits(self.exits_before(count), cells)
        &&& forall|k: int|
            0 <= k < count ==> routes_until(
                #[trigger] self.blocks@[k],
                host,
                lowered_count(self.blocks@[k]),
            ) && self.ends_well(self.blocks@[k])
    }

    /// Why the region has no plan: what is wrong with the first block that has none, or
    /// that cells are left over.
    pub open spec fn translation_fault(
        &self,
        host: HostAbi,
        cells: Seq<EntryCell>,
        error: TranslateError,
    ) -> bool {
        let n = self.blocks@.len() as int;
        if self.blocks_pass(host, cells, n) {
            &&& error is Fault && error->Fault_0 is UnusedCells
            &&& self.exits_before(n).len() < cells.len()
        } else {
            exists|k: int|
                0 <= k < n && self.blocks_pass(host, cells, k) && #[trigger] self.block_fault(
                    host,
                    k,
                    cells.skip(self.exits_before(k).len() as int),
                    error,
                )
        }
    }

    /// Cells that do not fit, do not.
    proof fn lemma_misfit_refuted(
        &self,
        exits: Seq<u64>,
        cells: Seq<EntryCell>,
        fault: TranslationFault,
    )
        requires
            self.misfit(exits, cells, fault),
        ensures
            !self.fits(exits, cells),
    {
        if let TranslationFault::CellOrder { expected, actual } = fault {
            let i = choose|i: int|
                #![trigger cells[i]]
                0 <= i < exits.len() && i < cells.len() && cells[i].target == expected && exits[i]
                    == actual && expected != actual && self.fits(exits.take(i), cells);
            assert(cells[i].target != exits[i]);
        }
    }

    proof fn lemma_dirty_is_written(
        &self,
        host: HostAbi,
        writes: Seq<StateSet>,
        b: int,
        item: StateItem,
        steps: nat,
    )
        requires
            self.are_writes(host, writes),
            0 <= b < self.blocks@.len(),
            dirtied(self.blocks@, writes, b, item, steps),
        ensures
            self.writes(host, item),
        decreases steps,
    {
        let a = choose|a: int|
            0 <= a < self.blocks@.len() && #[trigger] flows(self.blocks@, a, b) && (
            writes[a]@.contains(item) || dirtied(
                self.blocks@,
                writes,
                a,
                item,
                (steps - 1) as nat,
            ));
        if writes[a]@.contains(item) {
            assert(block_writes(self.blocks@[a].instructions@, host).contains(item));
        } else {
            self.lemma_dirty_is_written(host, writes, a, item, (steps - 1) as nat);
        }
    }

    /// Every register that is loaded somewhere is read or written, so it has a
    /// native value to be loaded into.
    pub proof fn law_loaded_registers_are_used(
        &self,
        host: HostAbi,
        facts: LoadFacts,
        loads: RegisterLoadBlocks,
        register: Register,
    )
        requires
            self.load_facts_of(host, facts),
            loads_follow(facts, loads),
            register.valid(),
            load_of(loads, register) is Some,
        ensures
            self.reads(host, register.item()) || self.writes(host, register.item()),
    {
        let r = load_of(loads, register);
        let item = register.item();
        match register {
            Register::X(index) => {
                assert(facts.loads_at(
                    Register::X(index as int as u8),
                    loads.integer@[index as int],
                ));
            },
            Register::Sp => {},
            Register::Vector(index) => {
                assert(facts.loads_at(
                    Register::Vector(index as int as u8),
                    loads.vector@[index as int],
                ));
            },
        }
        assert(facts.loads_at(register, r));
        let list = choose|list: Seq<usize>| #[trigger]
            facts.uses(register, list) && if list.len() == 0 && !facts.conditionally_dirty@.contains(
                register.item(),
            ) {
                r is None
            } else {
                true
            };
        if list.len() > 0 {
            let b = list[0] as int;
            assert(list[0] < facts.effects@.len());
            assert(names_index(list, b));
            assert(facts.effects@[b].reads@.contains(item));
            assert(block_reads(self.blocks@[b].instructions@, host).contains(item));
        } else {
            assert(facts.conditionally_dirty@.contains(item));
            let (writes, must) = choose|writes: Seq<StateSet>, must: Seq<StateSet>|
                self.are_writes(host, writes) && #[trigger] always_dirty(
                    self.blocks@,
                    must,
                    writes,
                    facts.primary as int,
                ) && forall|item: StateItem| #[trigger]
                    facts.conditionally_dirty@.contains(item) <==> exists|b: int|
                        0 <= b < self.blocks@.len() && #[trigger] may_be_dirty(
                            self.blocks@,
                            writes,
                            b,
                            item,
                        ) && !must[b]@.contains(item);
            let b = choose|b: int|
                0 <= b < self.blocks@.len() && #[trigger] may_be_dirty(
                    self.blocks@,
                    writes,
                    b,
                    item,
                ) && !must[b]@.contains(item);
            let steps = choose|steps: nat| #[trigger]
                dirtied(self.blocks@, writes, b, item, steps);
            self.lemma_dirty_is_written(host, writes, b, item, steps);
        }
    }

    /// Registers that are loaded have a native value.
    proof fn lemma_loads_declared(
        &self,
        host: HostAbi,
        loads: RegisterLoadBlocks,
        declared: RegisterChoice,
    )
        requires
            exists|facts: LoadFacts| #[trigger]
                self.load_facts_of(host, facts) && loads_follow(facts, loads),
            forall|register: Register|
                register.valid() ==> (#[trigger] declared.names(register) <==> self.reads(
                    host,
                    register.item(),
                ) || self.writes(host, register.item())),
        ensures
            forall|register: Register|
                register.valid() && (#[trigger] load_of(loads, register)) is Some
                    ==> declared.names(register),
    {
        let facts = choose|facts: LoadFacts| #[trigger]
            self.load_facts_of(host, facts) && loads_follow(facts, loads);
        assert forall|register: Register|
            register.valid() && (#[trigger] load_of(loads, register)) is Some implies declared.names(
            register,
        ) by {
            self.law_loaded_registers_are_used(host, facts, loads, register);
        }
    }

    /// The plan of block `index`.
    fn translate_block(
        &self,
        host: HostAbi,
        index: usize,
        loads: &RegisterLoadBlocks,
        declared: &RegisterChoice,
        merges_flags: bool,
        dirty: StateSet,
        cells: &mut CellQueue,
    ) -> (r: Result<BlockPlan, TranslateError>)
        requires
            index < self.blocks@.len(),
            region_plannable(*self),
            declared.wf(),
            loads.integer@.len() == 31,
            loads.vector@.len() == 32,
            old(cells).wf(),
            forall|register: Register|
                register.valid() && (#[trigger] load_of(*loads, register)) is Some
                    ==> declared.names(register),
        ensures
            final(cells).wf(),
            ({
                let block = self.blocks@[index as int];
                match r {
                    Ok(plan) => {
                        &&& self.block_fits(host, *loads, index as int, old(cells).left(), plan)
                        &&& plan.merges_flags == merges_flags
                        &&& plan.dirty == dirty
                        &&& self.fits(self.block_exits(block), old(cells).left())
                        &&& routes_until(block, host, lowered_count(block))
                        &&& final(cells).left() == old(cells).left().skip(
                            self.block_exits(block).len() as int,
                        )
                    },
                    Err(error) => self.block_fault(
                        host,
                        index as int,
                        old(cells).left(),
                        error,
                    ),
                }
            }),
    {
        let block = &self.blocks[index];
        let block_loads: Vec<RegisterTransfer> = if block.start == self.start {
            Vec::new()
        } else {
            match load_block_registers(loads, index, declared) {
                Ok(list) => list,
                Err(error) => {
                    return Err(TranslateError::Loads { block: index, error });
                },
            }
        };
        let routes = match self.block_routes(index, host) {
            Ok(routes) => routes,
            Err(error) => {
                return Err(error);
            },
        };
        match self.emit_terminator(index, cells) {
            Ok(ending) => Ok(
                BlockPlan { loads: block_loads, merges_flags, dirty, routes, ending },
            ),
            Err(fault) => Err(TranslateError::Fault(fault)),
        }
    }

    /// The plan of the region. Its exits with a known target go through the cells,
    /// in order.
    pub fn translate(
        &self,
        host: HostAbi,
        exits: &Vec<Option<u64>>,
        cells: &Vec<usize>,
        direct_memory: bool,
        promotion: Option<Promotion>,
    ) -> (r: Result<Translation, TranslateError>)
        requires
            self.wf(),
            region_plannable(*self),
        ensures
            match r {
                Ok(plan) => {
                    &&& cells@.len() == known_exits(exits@).len()
                    &&& !misplaced(promotion)
                    &&& self.blocks_pass(
                        host,
                        paired(exits@, cells@),
                        self.blocks@.len() as int,
                    )
                    &&& plan.direct_memory == direct_memory
                    &&& plan.promotion == promotion
                    &&& self.translation_fits(host, paired(exits@, cells@), plan)
                },
                Err(error) => if cells@.len() != known_exits(exits@).len() {
                    error is Fault && error->Fault_0 is CellCount
                } else if misplaced(promotion) {
                    error is Unaligned
                } else {
                    self.translation_fault(host, paired(exits@, cells@), error)
                },
            },
    {
        let pairs = match pair_cells(exits, cells) {
            Ok(pairs) => pairs,
            Err(fault) => {
                return Err(TranslateError::Fault(fault));
            },
        };
        proof {
            assert(pairs@ =~= paired(exits@, cells@));
        }
        let ghost given = pairs@;
        let merged = self.merged_flag_entries();
        let dirty = self.dirty_states_at_entry(host);
        let loads = self.register_load_blocks(host);
        let (read, written) = self.region_effects(host);
        let declared = self.declared(host);
        let primary: usize = self.primary();
        proof {
            self.lemma_loads_declared(host, loads, declared);
        }
        let entry_loads = match load_block_registers(&loads, primary, &declared) {
            Ok(list) => list,
            Err(error) => {
                return Err(TranslateError::Loads { block: primary, error });
            },
        };
        if let Some(place) = promotion {
            if place.hotness_address % 4 != 0 {
                return Err(TranslateError::Unaligned);
            }
        }
        let mut queue = CellQueue { cells: pairs, next: 0 };
        let mut blocks: Vec<BlockPlan> = Vec::new();
        let mut k: usize = 0;
        proof {
            assert(given.skip(0) =~= given);
        }
        while k < self.blocks.len()
            invariant
                k <= self.blocks@.len(),
                given == paired(exits@, cells@),
                cells@.len() == known_exits(exits@).len(),
                region_plannable(*self),
                declared.wf(),
                loads.integer@.len() == 31,
                loads.vector@.len() == 32,
                forall|register: Register|
                    register.valid() && (#[trigger] load_of(loads, register)) is Some
                        ==> declared.names(register),
                merged@.len() == self.blocks@.len(),
                dirty@.len() == self.blocks@.len(),
                queue.wf(),
                queue.left() == given.skip(self.exits_before(k as int).len() as int),
                self.blocks_pass(host, given, k as int),
                !misplaced(promotion),
                blocks@.len() == k,
                forall|j: int|
                    0 <= j < k ==> self.block_fits(
                        host,
                        loads,
                        j,
                        given.skip(self.exits_before(j).len() as int),
                        #[trigger] blocks@[j],
                    ),
                forall|j: int|
                    0 <= j < k ==> (#[trigger] blocks@[j]).merges_flags == merged@[j]
                        && blocks@[j].dirty == dirty@[j],
            decreases self.blocks@.len() - k,
        {
            let ghost done = self.exits_before(k as int);
            let ghost next = self.block_exits(self.blocks@[k as int]);
            match self.translate_block(
                host,
                k,
                &loads,
                &declared,
                merged[k],
                dirty[k],
                &mut queue,
            ) {
                Ok(plan) => {
                    blocks.push(plan);
                    proof {
                        self.lemma_fits_both(done, next, given);
                        assert(self.exits_before(k + 1) == done + next);
                        assert(queue.left() =~= given.skip((done + next).len() as int));
                    }
                },
                Err(error) => {
                    proof {
                        let n = self.blocks@.len() as int;
                        assert(self.block_fault(
                            host,
                            k as int,
                            given.skip(self.exits_before(k as int).len() as int),
                            error,
                        ));
                        if let TranslateError::Fault(fault) = error {
                            if !(fault is NotConditional) && !(fault is NotRegisterBranch) {
                                self.lemma_misfit_second(done, next, given, fault);
                                assert(self.exits_before(k + 1) == done + next);
                                self.lemma_misfit_later(k + 1, n, given, fault);
                                self.lemma_misfit_refuted(self.exits_before(n), given, fault);
                            }
                        }
                        assert(!self.blocks_pass(host, given, n)) by {
                            let block = self.blocks@[k as int];
                            if self.blocks_pass(host, given, n) {
                                assert(routes_until(block, host, lowered_count(block)));
                            }
                        }
                    }
                    return Err(error);
                },
            }
            k = k + 1;
        }
        if queue.next < queue.cells.len() {
            return Err(TranslateError::Fault(TranslationFault::UnusedCells));
        }
        let plan = Translation {
            native_fp: self.uses_native_fp(host),
            direct_memory,
            status: read.fpsr || written.fpsr,
            declared,
            loads,
            entry_loads,
            promotion,
            blocks,
        };
        proof {
            let n = self.blocks@.len() as int;
            assert(read@.contains(StateItem::Fpsr) == read.fpsr);
            assert(written@.contains(StateItem::Fpsr) == written.fpsr);
            assert(self.blocks@[primary as int].start == self.start);
            let writes = choose|writes: Seq<StateSet>| #[trigger]
                self.are_writes(host, writes) && forall|b: int, item: StateItem|
                    0 <= b < dirty@.len() ==> (#[trigger] dirty@[b]@.contains(item)
                        <==> may_be_dirty(self.blocks@, writes, b, item));
            assert forall|k: int, item: StateItem| 0 <= k < n implies (
            #[trigger] plan.blocks@[k].dirty@.contains(item) <==> may_be_dirty(
                self.blocks@,
                writes,
                k,
                item,
            )) by {
                assert(dirty@[k]@.contains(item) <==> may_be_dirty(self.blocks@, writes, k, item));
            }
            assert(self.are_writes(host, writes));
            assert(self.translation_fits(host, given, plan));
        }
        Ok(plan)
    }
}

/// The cells with the addresses that they belong to.
pub open spec fn paired(exits: Seq<Option<u64>>, cells: Seq<usize>) -> Seq<EntryCell> {
    Seq::new(
        cells.len(),
        |i: int| EntryCell { target: known_exits(exits)[i], cell: cells[i] },
    )
}

/// Each instruction of a block is lowered by the part that its kind belongs to, in order and
/// once. Only the last instruction may be left out, and only where the block ends because it
/// cannot be compiled; nothing that cannot be compiled is lowered.
pub proof fn law_instructions_are_lowered_by_their_kind(
    block: RegionBlock,
    host: HostAbi,
    routes: Seq<Route>,
    k: int,
)
    requires
        routes_fit(block, host, routes),
        0 <= k < block.instructions@.len(),
    ensures
        k >= routes.len() ==> k == block.instructions@.len() - 1 && block.terminator is Unsupported,
        k < routes.len() ==> {
            &&& routes[k] is Integer <==> block.instructions@[k] is Integer
            &&& routes[k] is Memory <==> block.instructions@[k] is Memory
            &&& routes[k] is System <==> block.instructions@[k] is System
            &&& routes[k] is FpSimd <==> block.instructions@[k] is FpSimd
            &&& routes[k] is Nothing <==> block.instructions@[k] is Control
            &&& !(block.instructions@[k] is RecognizedUnsupported)
        },
{
    if k < routes.len() {
        assert(route_fits(block.instructions@[k], host, routes[k]));
    }
}

/// The counter of a region lies where one step counts: all of its four bytes in one word.
pub proof fn law_counters_lie_in_one_word(promotion: Promotion)
    ensures
        !misplaced(Some(promotion)) <==> promotion.hotness_address / 4 == (
        promotion.hotness_address + 3) / 4,
        !misplaced(None),
{
}

} // verus!
