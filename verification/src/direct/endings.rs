//! How native code leaves each block of a region.

use vstd::prelude::*;
use super::error::{DirectJitError, DirectJitErrorKind};
use super::region::{BlockTerminator, Region, RegionBlock};
use crate::abi::exit::NativeExitReason;
use crate::analysis::access::BRANCH_LINK_REGISTER;
use crate::decode::{A64Instruction, ControlKind};

verus! {

/// What a conditional branch tests.
#[derive(Clone, Copy, Debug, PartialEq, Eq, Structural)]
pub enum BranchTest {
    Flags { condition: u8 },
    /// The register is zero, or is not where `nonzero` is set.
    Zero { register: u8, width_64: bool, nonzero: bool },
    /// The bit is clear, or is set where `nonzero` is set.
    Bit { register: u8, bit: u8, nonzero: bool },
}

/// One way out of a block.
#[derive(Clone, Copy, Debug, PartialEq, Eq, Structural)]
pub enum Edge {
    /// Forward, inside the region.
    Jump { target: u64 },
    /// Backward, inside the region, with a poll for control requests.
    Poll { target: u64 },
    /// Out of the region, through the entry cell of the target.
    Leave { target: u64, cell: usize },
}

/// How a block ends.
#[derive(Clone, Copy, Debug, PartialEq, Eq, Structural)]
pub enum Ending {
    Follow(Edge),
    Branch { test: BranchTest, taken: Edge, not_taken: Edge },
    /// Sets the link register and leaves the region.
    Call { return_address: u64, target: u64, cell: usize },
    /// Leaves for the address in a register, setting the link register first
    /// where there is a link.
    Register { register: u8, link: Option<u64> },
    Exit { reason: NativeExitReason, detail: u32, pc: u64 },
}

/// Why a region cannot be translated.
#[derive(Clone, Copy, Debug, PartialEq, Eq, Structural)]
pub enum TranslationFault {
    CellCount,
    MissingCell,
    CellOrder { expected: u64, actual: u64 },
    UnusedCells,
    NotConditional,
    NotRegisterBranch,
    MissedMerge { target: u64 },
    MissingBlock { pc: u64 },
}

impl TranslationFault {
    pub open spec fn text(self, first: Seq<char>, second: Seq<char>) -> Seq<char> {
        match self {
            TranslationFault::CellCount =>
                "direct JIT static entry cells disagree with region exits"@,
            TranslationFault::MissingCell =>
                "direct JIT region is missing a static target entry cell"@,
            TranslationFault::CellOrder { .. } =>
                "direct JIT static target order mismatch: expected="@ + first + " actual="@
                    + second,
            TranslationFault::UnusedCells => "direct JIT region left static entry cells unused"@,
            TranslationFault::NotConditional =>
                "conditional region terminator lacks a conditional instruction"@,
            TranslationFault::NotRegisterBranch =>
                "indirect region terminator lacks a register branch"@,
            TranslationFault::MissedMerge { .. } =>
                "direct JIT flag predecessor analysis missed a merge at "@ + first,
            TranslationFault::MissingBlock { .. } => "direct JIT region has no block for "@ + first,
        }
    }

    /// The error, where `first` and `second` are the addresses that the fault
    /// names, as text.
    pub fn error(self, first: &str, second: &str) -> (r: DirectJitError)
        ensures
            r.is(DirectJitErrorKind::Internal, self.text(first@, second@)),
    {
        match self {
            TranslationFault::CellCount => DirectJitError::internal(
                "direct JIT static entry cells disagree with region exits",
            ),
            TranslationFault::MissingCell => DirectJitError::internal(
                "direct JIT region is missing a static target entry cell",
            ),
            TranslationFault::CellOrder { .. } => {
                let detail = String::from_str(
                    "direct JIT static target order mismatch: expected=",
                ).concat(first).concat(" actual=").concat(second);
                DirectJitError::internal(detail.as_str())
            },
            TranslationFault::UnusedCells => DirectJitError::internal(
                "direct JIT region left static entry cells unused",
            ),
            TranslationFault::NotConditional => DirectJitError::internal(
                "conditional region terminator lacks a conditional instruction",
            ),
            TranslationFault::NotRegisterBranch => DirectJitError::internal(
                "indirect region terminator lacks a register branch",
            ),
            TranslationFault::MissedMerge { .. } => {
                let detail = String::from_str(
                    "direct JIT flag predecessor analysis missed a merge at ",
                ).concat(first);
                DirectJitError::internal(detail.as_str())
            },
            TranslationFault::MissingBlock { .. } => {
                let detail = String::from_str("direct JIT region has no block for ").concat(first);
                DirectJitError::internal(detail.as_str())
            },
        }
    }
}

/// The entry cell through which native code reaches an address.
#[derive(Clone, Copy, Debug, PartialEq, Eq, Structural)]
pub struct EntryCell {
    pub target: u64,
    pub cell: usize,
}

/// The exits of a region that have a fixed target.
pub open spec fn known_exits(exits: Seq<Option<u64>>) -> Seq<u64>
    decreases exits.len(),
{
    if exits.len() == 0 {
        Seq::empty()
    } else {
        match exits.last() {
            Some(target) => known_exits(exits.drop_last()).push(target),
            None => known_exits(exits.drop_last()),
        }
    }
}

/// Pairs each fixed exit of a region with its cell.
pub fn pair_cells(exits: &Vec<Option<u64>>, cells: &Vec<usize>) -> (r: Result<
    Vec<EntryCell>,
    TranslationFault,
>)
    ensures
        match r {
            Ok(pairs) => {
                &&& cells@.len() == known_exits(exits@).len()
                &&& pairs@.len() == cells@.len()
                &&& forall|i: int|
                    0 <= i < pairs@.len() ==> #[trigger] pairs@[i] == (EntryCell {
                        target: known_exits(exits@)[i],
                        cell: cells@[i],
                    })
            },
            Err(fault) => cells@.len() != known_exits(exits@).len() && fault
                == TranslationFault::CellCount,
        },
{
    let mut pairs: Vec<EntryCell> = Vec::new();
    let mut short: bool = false;
    let mut k: usize = 0;
    proof {
        assert(exits@.take(0) =~= Seq::empty());
    }
    while k < exits.len()
        invariant
            k <= exits@.len(),
            !short ==> pairs@.len() == known_exits(exits@.take(k as int)).len(),
            short ==> known_exits(exits@.take(k as int)).len() > cells@.len(),
            pairs@.len() <= cells@.len(),
            pairs@.len() <= known_exits(exits@.take(k as int)).len(),
            forall|i: int|
                0 <= i < pairs@.len() ==> #[trigger] pairs@[i] == (EntryCell {
                    target: known_exits(exits@.take(k as int))[i],
                    cell: cells@[i],
                }),
        decreases exits@.len() - k,
    {
        proof {
            assert(exits@.take(k + 1).drop_last() =~= exits@.take(k as int));
        }
        if let Some(target) = exits[k] {
            if !short {
                if pairs.len() < cells.len() {
                    let cell: usize = cells[pairs.len()];
                    pairs.push(EntryCell { target, cell });
                } else {
                    short = true;
                }
            }
        }
        k = k + 1;
    }
    proof {
        assert(exits@.take(k as int) =~= exits@);
    }
    if short || pairs.len() != cells.len() {
        return Err(TranslationFault::CellCount);
    }
    Ok(pairs)
}

/// The cells that are still to be used, in the order of the exits.
pub struct CellQueue {
    pub cells: Vec<EntryCell>,
    pub next: usize,
}

impl CellQueue {
    pub open spec fn wf(&self) -> bool {
        self.next <= self.cells@.len()
    }

    /// The addresses that the unused cells belong to.
    pub open spec fn left(&self) -> Seq<EntryCell> {
        self.cells@.skip(self.next as int)
    }

    /// Takes the next cell, which must be that of `target`.
    pub fn take(&mut self, target: u64) -> (r: Result<usize, TranslationFault>)
        requires
            old(self).wf(),
        ensures
            final(self).wf(),
            match r {
                Ok(cell) => {
                    &&& old(self).left().len() > 0
                    &&& old(self).left()[0] == (EntryCell { target, cell })
                    &&& final(self).left() == old(self).left().drop_first()
                },
                Err(TranslationFault::MissingCell) => old(self).left().len() == 0,
                Err(fault) => old(self).left().len() > 0 && old(self).left()[0].target != target
                    && fault == (TranslationFault::CellOrder {
                    expected: old(self).left()[0].target,
                    actual: target,
                }),
            },
    {
        if self.next >= self.cells.len() {
            return Err(TranslationFault::MissingCell);
        }
        let front = self.cells[self.next];
        if front.target != target {
            return Err(TranslationFault::CellOrder { expected: front.target, actual: target });
        }
        let ghost before = self.left();
        self.next = self.next + 1;
        proof {
            assert(self.left() =~= before.drop_first());
        }
        Ok(front.cell)
    }
}

/// The test of a conditional branch instruction.
pub open spec fn test_of(instruction: A64Instruction) -> Option<BranchTest> {
    match instruction {
        A64Instruction::Control(fields) => match fields.kind {
            ControlKind::ConditionalBranch => Some(
                BranchTest::Flags { condition: fields.condition },
            ),
            ControlKind::CompareBranch => Some(
                BranchTest::Zero {
                    register: fields.rd,
                    width_64: fields.width_64,
                    nonzero: fields.nonzero,
                },
            ),
            ControlKind::TestBranch => Some(
                BranchTest::Bit {
                    register: fields.rd,
                    bit: fields.bit_index,
                    nonzero: fields.nonzero,
                },
            ),
            _ => None,
        },
        _ => None,
    }
}

/// The register of a register branch, and whether it sets the link register.
pub open spec fn register_branch(instruction: A64Instruction) -> Option<(u8, bool)> {
    match instruction {
        A64Instruction::Control(fields) => if fields.kind is BranchRegister {
            Some((fields.rn, fields.branch_register_key == BRANCH_LINK_REGISTER))
        } else {
            None
        },
        _ => None,
    }
}

pub open spec fn last_of(block: RegionBlock) -> Option<A64Instruction> {
    if block.instructions@.len() == 0 {
        None
    } else {
        Some(block.instructions@.last())
    }
}

/// The detail of an architectural exit: a class and the low bits of the syndrome.
pub open spec fn exception_detail(class: u32, syndrome: Option<u64>) -> u32 {
    (class << 24) | ((match syndrome {
        Some(value) => value,
        None => 0,
    } as u32) & 0x00ff_ffff)
}

fn exception_word(class: u32, syndrome: Option<u64>) -> (r: u32)
    ensures
        r == exception_detail(class, syndrome),
{
    let value: u64 = match syndrome {
        Some(value) => value,
        None => 0,
    };
    (class << 24) | ((#[verifier::truncate]
    (value as u32)) & 0x00ff_ffff)
}

impl Region {
    /// The exit that an edge takes, where it leaves the region.
    pub open spec fn edge_exit(&self, target: u64) -> Seq<u64> {
        if self.has_block(target) {
            Seq::empty()
        } else {
            seq![target]
        }
    }

    /// The exits with a fixed target that a block takes, in order.
    pub open spec fn block_exits(&self, block: RegionBlock) -> Seq<u64> {
        match block.terminator {
            BlockTerminator::Direct { target } => self.edge_exit(target),
            BlockTerminator::Conditional { taken, not_taken } => self.edge_exit(taken)
                + self.edge_exit(not_taken),
            BlockTerminator::Call { target, .. } => seq![target],
            BlockTerminator::Limit { continuation } => seq![continuation],
            _ => Seq::empty(),
        }
    }

    /// The exits of the first `n` blocks.
    pub open spec fn exits_before(&self, n: int) -> Seq<u64>
        decreases n,
    {
        if n <= 0 {
            Seq::empty()
        } else {
            self.exits_before(n - 1) + self.block_exits(self.blocks@[n - 1])
        }
    }

    /// The last instruction of the block is what its terminator says.
    pub open spec fn ends_well(&self, block: RegionBlock) -> bool {
        &&& block.terminator is Conditional ==> last_of(block) is Some && test_of(
            last_of(block)->0,
        ) is Some
        &&& block.terminator is Indirect ==> last_of(block) is Some && register_branch(
            last_of(block)->0,
        ) is Some
    }

    /// This edge, through this cell where it leaves the region.
    pub open spec fn edge_of(&self, source: u64, target: u64, cells: Seq<EntryCell>) -> Edge {
        if !self.has_block(target) {
            Edge::Leave { target, cell: cells[0].cell }
        } else if target <= source {
            Edge::Poll { target }
        } else {
            Edge::Jump { target }
        }
    }

    /// The ending of a block, whose exits go through these cells.
    pub open spec fn ending_of(&self, block: RegionBlock, cells: Seq<EntryCell>) -> Ending {
        match block.terminator {
            BlockTerminator::Direct { target } => Ending::Follow(
                self.edge_of(block.source, target, cells),
            ),
            BlockTerminator::Conditional { taken, not_taken } => Ending::Branch {
                test: test_of(last_of(block)->0)->0,
                taken: self.edge_of(block.source, taken, cells),
                not_taken: self.edge_of(
                    block.source,
                    not_taken,
                    cells.skip(self.edge_exit(taken).len() as int),
                ),
            },
            BlockTerminator::Call { target, return_address } => Ending::Call {
                return_address,
                target,
                cell: cells[0].cell,
            },
            BlockTerminator::Indirect => Ending::Register {
                register: (register_branch(last_of(block)->0)->0).0,
                link: if (register_branch(last_of(block)->0)->0).1 {
                    Some(((block.source + 4) % 0x1_0000_0000_0000_0000) as u64)
                } else {
                    None
                },
            },
            BlockTerminator::SupervisorCall { syndrome } => Ending::Exit {
                reason: NativeExitReason::Architectural,
                detail: exception_detail(1, syndrome),
                pc: block.source,
            },
            BlockTerminator::Breakpoint { syndrome } => Ending::Exit {
                reason: NativeExitReason::Architectural,
                detail: exception_detail(2, syndrome),
                pc: block.source,
            },
            BlockTerminator::OtherException { syndrome } => Ending::Exit {
                reason: NativeExitReason::Architectural,
                detail: exception_detail(0, syndrome),
                pc: block.source,
            },
            BlockTerminator::Unsupported => Ending::Exit {
                reason: NativeExitReason::Unsupported,
                detail: 0,
                pc: block.source,
            },
            BlockTerminator::FpModeChange { continuation } => Ending::Exit {
                reason: NativeExitReason::Dispatch,
                detail: 0,
                pc: continuation,
            },
            BlockTerminator::Limit { continuation } => Ending::Follow(
                Edge::Leave { target: continuation, cell: cells[0].cell },
            ),
        }
    }

    /// The cells fit these exits.
    pub open spec fn fits(&self, exits: Seq<u64>, cells: Seq<EntryCell>) -> bool {
        &&& exits.len() <= cells.len()
        &&& forall|i: int| 0 <= i < exits.len() ==> (#[trigger] cells[i]).target == exits[i]
    }

    /// The cells do not fit these exits, first in this way.
    pub open spec fn misfit(
        &self,
        exits: Seq<u64>,
        cells: Seq<EntryCell>,
        fault: TranslationFault,
    ) -> bool {
        match fault {
            TranslationFault::MissingCell => cells.len() < exits.len() && self.fits(
                exits.take(cells.len() as int),
                cells,
            ),
            TranslationFault::CellOrder { expected, actual } => exists|i: int|
                #![trigger cells[i]]
                0 <= i < exits.len() && i < cells.len() && cells[i].target == expected && exits[i]
                    == actual && expected != actual && self.fits(exits.take(i), cells),
            _ => false,
        }
    }

    /// One edge of the block whose last instruction is at `source`.
    pub fn emit_edge(&self, source: u64, target: u64, cells: &mut CellQueue) -> (r: Result<
        Edge,
        TranslationFault,
    >)
        requires
            old(cells).wf(),
        ensures
            final(cells).wf(),
            match r {
                Ok(edge) => {
                    &&& self.fits(self.edge_exit(target), old(cells).left())
                    &&& edge == self.edge_of(source, target, old(cells).left())
                    &&& final(cells).left() == old(cells).left().skip(
                        self.edge_exit(target).len() as int,
                    )
                },
                Err(fault) => self.misfit(self.edge_exit(target), old(cells).left(), fault),
            },
    {
        let ghost before = cells.left();
        if self.index_of(target).is_some() {
            proof {
                assert(before.skip(0) =~= before);
            }
            if target <= source {
                Ok(Edge::Poll { target })
            } else {
                Ok(Edge::Jump { target })
            }
        } else {
            match cells.take(target) {
                Ok(cell) => {
                    proof {
                        assert(before.skip(1) =~= before.drop_first());
                    }
                    Ok(Edge::Leave { target, cell })
                },
                Err(fault) => {
                    proof {
                        if before.len() > 0 {
                            assert(before[0].target != target);
                        }
                    }
                    Err(fault)
                },
            }
        }
    }

    /// How block `index` ends.
    pub fn emit_terminator(&self, index: usize, cells: &mut CellQueue) -> (r: Result<
        Ending,
        TranslationFault,
    >)
        requires
            index < self.blocks@.len(),
            old(cells).wf(),
        ensures
            final(cells).wf(),
            ({
                let block = self.blocks@[index as int];
                match r {
                    Ok(ending) => {
                        &&& self.ends_well(block)
                        &&& self.fits(self.block_exits(block), old(cells).left())
                        &&& ending == self.ending_of(block, old(cells).left())
                        &&& final(cells).left() == old(cells).left().skip(
                            self.block_exits(block).len() as int,
                        )
                    },
                    Err(TranslationFault::NotConditional) => block.terminator is Conditional
                        && !self.ends_well(block),
                    Err(TranslationFault::NotRegisterBranch) => block.terminator is Indirect
                        && !self.ends_well(block),
                    Err(fault) => self.ends_well(block) && self.misfit(
                        self.block_exits(block),
                        old(cells).left(),
                        fault,
                    ),
                }
            }),
    {
        let block = &self.blocks[index];
        let ghost before = cells.left();
        proof {
            assert(before.skip(0) =~= before);
        }
        match block.terminator {
            BlockTerminator::Direct { target } => match self.emit_edge(
                block.source,
                target,
                cells,
            ) {
                Ok(edge) => Ok(Ending::Follow(edge)),
                Err(fault) => Err(fault),
            },
            BlockTerminator::Conditional { taken, not_taken } => {
                let test = match branch_test(block) {
                    Some(test) => test,
                    None => {
                        return Err(TranslationFault::NotConditional);
                    },
                };
                let first = match self.emit_edge(block.source, taken, cells) {
                    Ok(edge) => edge,
                    Err(fault) => {
                        proof {
                            self.lemma_misfit_first(
                                self.edge_exit(taken),
                                self.edge_exit(not_taken),
                                before,
                                fault,
                            );
                        }
                        return Err(fault);
                    },
                };
                let ghost middle = cells.left();
                let second = match self.emit_edge(block.source, not_taken, cells) {
                    Ok(edge) => edge,
                    Err(fault) => {
                        proof {
                            self.lemma_misfit_second(
                                self.edge_exit(taken),
                                self.edge_exit(not_taken),
                                before,
                                fault,
                            );
                        }
                        return Err(fault);
                    },
                };
                proof {
                    self.lemma_fits_both(self.edge_exit(taken), self.edge_exit(not_taken), before);
                    assert(cells.left() =~= before.skip(
                        (self.edge_exit(taken) + self.edge_exit(not_taken)).len() as int,
                    ));
                }
                Ok(Ending::Branch { test, taken: first, not_taken: second })
            },
            BlockTerminator::Call { target, return_address } => match cells.take(target) {
                Ok(cell) => {
                    proof {
                        assert(before.skip(1) =~= before.drop_first());
                    }
                    Ok(Ending::Call { return_address, target, cell })
                },
                Err(fault) => {
                    proof {
                        if before.len() > 0 {
                            assert(before[0].target != target);
                        }
                    }
                    Err(fault)
                },
            },
            BlockTerminator::Indirect => match branch_register(block) {
                Some((register, links)) => Ok(
                    Ending::Register {
                        register,
                        link: if links {
                            Some(block.source.wrapping_add(4))
                        } else {
                            None
                        },
                    },
                ),
                None => Err(TranslationFault::NotRegisterBranch),
            },
            BlockTerminator::SupervisorCall { syndrome } => Ok(
                Ending::Exit {
                    reason: NativeExitReason::Architectural,
                    detail: exception_word(1, syndrome),
                    pc: block.source,
                },
            ),
            BlockTerminator::Breakpoint { syndrome } => Ok(
                Ending::Exit {
                    reason: NativeExitReason::Architectural,
                    detail: exception_word(2, syndrome),
                    pc: block.source,
                },
            ),
            BlockTerminator::OtherException { syndrome } => Ok(
                Ending::Exit {
                    reason: NativeExitReason::Architectural,
                    detail: exception_word(0, syndrome),
                    pc: block.source,
                },
            ),
            BlockTerminator::Unsupported => Ok(
                Ending::Exit { reason: NativeExitReason::Unsupported, detail: 0, pc: block.source },
            ),
            BlockTerminator::FpModeChange { continuation } => Ok(
                Ending::Exit { reason: NativeExitReason::Dispatch, detail: 0, pc: continuation },
            ),
            BlockTerminator::Limit { continuation } => match cells.take(continuation) {
                Ok(cell) => {
                    proof {
                        assert(before.skip(1) =~= before.drop_first());
                    }
                    Ok(Ending::Follow(Edge::Leave { target: continuation, cell }))
                },
                Err(fault) => {
                    proof {
                        if before.len() > 0 {
                            assert(before[0].target != continuation);
                        }
                    }
                    Err(fault)
                },
            },
        }
    }

    pub proof fn lemma_fits_both(&self, a: Seq<u64>, b: Seq<u64>, cells: Seq<EntryCell>)
        requires
            self.fits(a, cells),
            self.fits(b, cells.skip(a.len() as int)),
        ensures
            self.fits(a + b, cells),
    {
        let rest = cells.skip(a.len() as int);
        assert forall|i: int| 0 <= i < (a + b).len() implies (#[trigger] cells[i]).target == (a
            + b)[i] by {
            if i >= a.len() {
                assert(rest[i - a.len()] == cells[i]);
            }
        }
    }

    pub proof fn lemma_misfit_first(
        &self,
        a: Seq<u64>,
        b: Seq<u64>,
        cells: Seq<EntryCell>,
        fault: TranslationFault,
    )
        requires
            self.misfit(a, cells, fault),
        ensures
            self.misfit(a + b, cells, fault),
    {
        match fault {
            TranslationFault::MissingCell => {
                assert((a + b).take(cells.len() as int) =~= a.take(cells.len() as int));
            },
            TranslationFault::CellOrder { expected, actual } => {
                let i = choose|i: int|
                    #![trigger cells[i]]
                    0 <= i < a.len() && i < cells.len() && cells[i].target == expected && a[i]
                        == actual && expected != actual && self.fits(a.take(i), cells);
                assert((a + b).take(i) =~= a.take(i));
                assert((a + b)[i] == a[i]);
            },
            _ => {},
        }
    }

    pub proof fn lemma_misfit_second(
        &self,
        a: Seq<u64>,
        b: Seq<u64>,
        cells: Seq<EntryCell>,
        fault: TranslationFault,
    )
        requires
            self.fits(a, cells),
            self.misfit(b, cells.skip(a.len() as int), fault),
        ensures
            self.misfit(a + b, cells, fault),
    {
        let rest = cells.skip(a.len() as int);
        let all = a + b;
        match fault {
            TranslationFault::MissingCell => {
                assert(all.take(cells.len() as int) =~= a + b.take(rest.len() as int));
                self.lemma_fits_both(a, b.take(rest.len() as int), cells);
            },
            TranslationFault::CellOrder { expected, actual } => {
                let i = choose|i: int|
                    #![trigger rest[i]]
                    0 <= i < b.len() && i < rest.len() && rest[i].target == expected && b[i]
                        == actual && expected != actual && self.fits(b.take(i), rest);
                let j = a.len() + i;
                assert(all.take(j) =~= a + b.take(i));
                self.lemma_fits_both(a, b.take(i), cells);
                assert(cells[j] == rest[i]);
                assert(all[j] == b[i]);
            },
            _ => {},
        }
    }

    pub proof fn lemma_misfit_later(
        &self,
        from: int,
        to: int,
        cells: Seq<EntryCell>,
        fault: TranslationFault,
    )
        requires
            0 <= from <= to,
            self.misfit(self.exits_before(from), cells, fault),
        ensures
            self.misfit(self.exits_before(to), cells, fault),
        decreases to - from,
    {
        if from < to {
            self.lemma_misfit_first(
                self.exits_before(from),
                self.block_exits(self.blocks@[from]),
                cells,
                fault,
            );
            assert(self.exits_before(from + 1) == self.exits_before(from) + self.block_exits(
                self.blocks@[from],
            ));
            self.lemma_misfit_later(from + 1, to, cells, fault);
        }
    }
}

fn branch_test(block: &RegionBlock) -> (r: Option<BranchTest>)
    ensures
        r == (match last_of(*block) {
            Some(last) => test_of(last),
            None => None,
        }),
{
    let count: usize = block.instructions.len();
    if count == 0 {
        return None;
    }
    match block.instructions[count - 1] {
        A64Instruction::Control(fields) => match fields.kind {
            ControlKind::ConditionalBranch => Some(
                BranchTest::Flags { condition: fields.condition },
            ),
            ControlKind::CompareBranch => Some(
                BranchTest::Zero {
                    register: fields.rd,
                    width_64: fields.width_64,
                    nonzero: fields.nonzero,
                },
            ),
            ControlKind::TestBranch => Some(
                BranchTest::Bit {
                    register: fields.rd,
                    bit: fields.bit_index,
                    nonzero: fields.nonzero,
                },
            ),
            _ => None,
        },
        _ => None,
    }
}

fn branch_register(block: &RegionBlock) -> (r: Option<(u8, bool)>)
    ensures
        r == (match last_of(*block) {
            Some(last) => register_branch(last),
            None => None,
        }),
{
    let count: usize = block.instructions.len();
    if count == 0 {
        return None;
    }
    match block.instructions[count - 1] {
        A64Instruction::Control(fields) => match fields.kind {
            ControlKind::BranchRegister => Some(
                (fields.rn, fields.branch_register_key == BRANCH_LINK_REGISTER),
            ),
            _ => None,
        },
        _ => None,
    }
}

/// The exits with a fixed target keep their order: those of two lists in a row are those of
/// the first and then those of the second, and an exit without a target leaves no trace.
pub proof fn law_exits_keep_their_order(first: Seq<Option<u64>>, second: Seq<Option<u64>>, target: u64)
    ensures
        known_exits(first + second) =~= known_exits(first) + known_exits(second),
        known_exits(seq![Some(target)]) =~= seq![target],
        known_exits(seq![None::<u64>]) =~= Seq::<u64>::empty(),
    decreases second.len(),
{
    let one = seq![Some(target)];
    let none = seq![None::<u64>];
    reveal_with_fuel(known_exits, 2);
    assert(one.drop_last() =~= Seq::<Option<u64>>::empty());
    assert(none.drop_last() =~= Seq::<Option<u64>>::empty());
    if second.len() == 0 {
        assert(first + second =~= first);
    } else {
        assert((first + second).drop_last() =~= first + second.drop_last());
        assert((first + second).last() == second.last());
        law_exits_keep_their_order(first, second.drop_last(), target);
    }
}

} // verus!
