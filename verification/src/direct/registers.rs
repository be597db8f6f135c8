//! Guest registers in native code: which have a native value, and when they move
//! between it and guest state.

use vstd::prelude::*;
use super::error::{DirectJitError, DirectJitErrorKind};
use super::loads::{Register, RegisterLoadBlocks};
use super::region::Region;
use super::text::{decimal, decimal_of};
use crate::abi::HostAbi;
use crate::analysis::{StateItem, StateSet};

verus! {

/// The registers in the order in which they are visited.
pub open spec fn rank(register: Register) -> int {
    match register {
        Register::X(index) => index as int,
        Register::Sp => 31,
        Register::Vector(index) => 32 + index,
    }
}

pub const REGISTERS: usize = 64;

fn register_at(at: usize) -> (r: Register)
    requires
        at < REGISTERS,
    ensures
        r.valid(),
        rank(r) == at,
{
    if at < 31 {
        Register::X(at as u8)
    } else if at == 31 {
        Register::Sp
    } else {
        Register::Vector((at - 32) as u8)
    }
}

fn place(register: Register) -> (r: usize)
    requires
        register.valid(),
    ensures
        r == rank(register),
        r < REGISTERS,
{
    match register {
        Register::X(index) => index as usize,
        Register::Sp => 31,
        Register::Vector(index) => 32 + index as usize,
    }
}

/// A choice of registers, by rank.
pub struct RegisterChoice {
    pub chosen: Vec<bool>,
}

impl RegisterChoice {
    pub open spec fn wf(&self) -> bool {
        self.chosen@.len() == REGISTERS
    }

    pub open spec fn names(&self, register: Register) -> bool {
        self.chosen@[rank(register)]
    }

    /// The registers of a set.
    pub fn of_set(set: &StateSet) -> (r: RegisterChoice)
        ensures
            r.wf(),
            forall|register: Register|
                register.valid() ==> (#[trigger] r.names(register) <==> set@.contains(
                    register.item(),
                )),
    {
        let mut chosen: Vec<bool> = Vec::new();
        let mut at: usize = 0;
        while at < REGISTERS
            invariant
                at <= REGISTERS,
                chosen@.len() == at,
                forall|register: Register|
                    register.valid() && rank(register) < at ==> (#[trigger] chosen@[rank(register)]
                        <==> set@.contains(register.item())),
            decreases REGISTERS - at,
        {
            let register = register_at(at);
            let held: bool = match register {
                Register::X(index) => set.integer.x[index as usize],
                Register::Sp => set.integer.sp,
                Register::Vector(index) => set.vector[index as usize],
            };
            chosen.push(held);
            proof {
                assert forall|other: Register|
                    other.valid() && rank(other) == at implies other == register by {}
            }
            at = at + 1;
        }
        RegisterChoice { chosen }
    }

    /// The registers that are loaded at the start of a block.
    pub fn loaded_at(loads: &RegisterLoadBlocks, block: usize) -> (r: RegisterChoice)
        requires
            loads.integer@.len() == 31,
            loads.vector@.len() == 32,
        ensures
            r.wf(),
            forall|register: Register|
                register.valid() ==> (#[trigger] r.names(register) <==> load_of(*loads, register)
                    == Some(block)),
    {
        let mut chosen: Vec<bool> = Vec::new();
        let mut at: usize = 0;
        while at < REGISTERS
            invariant
                at <= REGISTERS,
                loads.integer@.len() == 31,
                loads.vector@.len() == 32,
                chosen@.len() == at,
                forall|register: Register|
                    register.valid() && rank(register) < at ==> (#[trigger] chosen@[rank(register)]
                        <==> load_of(*loads, register) == Some(block)),
            decreases REGISTERS - at,
        {
            let register = register_at(at);
            let load: Option<usize> = match register {
                Register::X(index) => loads.integer[index as usize],
                Register::Sp => loads.sp,
                Register::Vector(index) => loads.vector[index as usize],
            };
            let held: bool = match load {
                Some(at) => at == block,
                None => false,
            };
            chosen.push(held);
            proof {
                assert forall|other: Register|
                    other.valid() && rank(other) == at implies other == register by {}
            }
            at = at + 1;
        }
        RegisterChoice { chosen }
    }
}

/// The block at whose start a register is loaded.
pub open spec fn load_of(loads: RegisterLoadBlocks, register: Register) -> Option<usize> {
    match register {
        Register::X(index) => loads.integer@[index as int],
        Register::Sp => loads.sp,
        Register::Vector(index) => loads.vector@[index as int],
    }
}

/// A register and where it lies in its part of guest state.
#[derive(Clone, Copy, Debug, PartialEq, Eq, Structural)]
pub struct RegisterTransfer {
    pub register: Register,
    pub offset: i32,
}

pub open spec fn offset_of(register: Register) -> int {
    match register {
        Register::X(index) => 8 * index,
        Register::Sp => 0,
        Register::Vector(index) => 16 * index,
    }
}

/// The list moves this register.
pub open spec fn moves(list: Seq<RegisterTransfer>, register: Register) -> bool {
    exists|k: int| 0 <= k < list.len() && (#[trigger] list[k]).register == register
}

/// The registers come in order, each once, with their places.
pub open spec fn in_order(list: Seq<RegisterTransfer>) -> bool {
    &&& forall|k: int|
        0 <= k < list.len() ==> (#[trigger] list[k]).register.valid() && list[k].offset
            == offset_of(list[k].register)
    &&& forall|i: int, j: int|
        0 <= i < j < list.len() ==> rank((#[trigger] list[i]).register) < rank(
            (#[trigger] list[j]).register,
        )
}

/// The list moves exactly the chosen registers, each once.
pub open spec fn moves_choice(list: Seq<RegisterTransfer>, choice: RegisterChoice) -> bool {
    &&& in_order(list)
    &&& forall|register: Register|
        register.valid() ==> (#[trigger] moves(list, register) <==> choice.names(register))
}

/// The texts for a register without a native value.
pub struct MissingTexts<'a> {
    pub general: &'a str,
    pub stack_pointer: &'a str,
    pub vector: &'a str,
}

impl<'a> MissingTexts<'a> {
    pub open spec fn text(&self, register: Register) -> Seq<char> {
        match register {
            Register::X(_) => self.general@,
            Register::Sp => self.stack_pointer@,
            Register::Vector(_) => self.vector@,
        }
    }
}

/// The first chosen register without a native value is this one.
pub open spec fn first_missing(
    choice: RegisterChoice,
    declared: RegisterChoice,
    register: Register,
) -> bool {
    &&& register.valid()
    &&& choice.names(register)
    &&& !declared.names(register)
    &&& forall|other: Register|
        other.valid() && rank(other) < rank(register) && #[trigger] choice.names(other)
            ==> declared.names(other)
}

/// Moves the chosen registers, all of which must have a native value.
fn transfers(choice: &RegisterChoice, declared: &RegisterChoice, texts: &MissingTexts) -> (r: Result<
    Vec<RegisterTransfer>,
    DirectJitError,
>)
    requires
        choice.wf(),
        declared.wf(),
    ensures
        match r {
            Ok(list) => moves_choice(list@, *choice) && forall|register: Register|
                register.valid() && #[trigger] choice.names(register) ==> declared.names(register),
            Err(error) => exists|register: Register| #[trigger]
                first_missing(*choice, *declared, register) && error.is(
                    DirectJitErrorKind::Internal,
                    texts.text(register),
                ),
        },
{
    let mut list: Vec<RegisterTransfer> = Vec::new();
    let mut at: usize = 0;
    while at < REGISTERS
        invariant
            at <= REGISTERS,
            choice.wf(),
            declared.wf(),
            forall|k: int|
                0 <= k < list@.len() ==> (#[trigger] list@[k]).register.valid() && list@[k].offset
                    == offset_of(list@[k].register) && rank(list@[k].register) < at
                    && choice.names(list@[k].register),
            forall|i: int, j: int|
                0 <= i < j < list@.len() ==> rank((#[trigger] list@[i]).register) < rank(
                    (#[trigger] list@[j]).register,
                ),
            forall|register: Register|
                register.valid() && rank(register) < at && choice.names(register)
                    ==> #[trigger] moves(list@, register) && declared.names(register),
        decreases REGISTERS - at,
    {
        let register = register_at(at);
        let ghost before = list@;
        if choice.chosen[at] {
            if !declared.chosen[at] {
                proof {
                    assert forall|other: Register|
                        other.valid() && rank(other) < rank(register) && #[trigger] choice.names(
                            other,
                        ) implies declared.names(other) by {
                        assert(moves(list@, other));
                    }
                    assert(first_missing(*choice, *declared, register));
                }
                return Err(
                    match register {
                        Register::X(_) => DirectJitError::internal(texts.general),
                        Register::Sp => DirectJitError::internal(texts.stack_pointer),
                        Register::Vector(_) => DirectJitError::internal(texts.vector),
                    },
                );
            }
            let offset: i32 = match register {
                Register::X(index) => 8 * index as i32,
                Register::Sp => 0,
                Register::Vector(index) => 16 * index as i32,
            };
            list.push(RegisterTransfer { register, offset });
        }
        proof {
            assert forall|other: Register|
                other.valid() && rank(other) < at + 1 && choice.names(other) implies
                #[trigger] moves(list@, other) && declared.names(other) by {
                if rank(other) < at {
                    assert(moves(before, other));
                    let k = choose|k: int|
                        0 <= k < before.len() && (#[trigger] before[k]).register == other;
                    assert(list@[k].register == other);
                } else {
                    assert(other == register);
                    assert(list@[list@.len() - 1].register == other);
                }
            }
        }
        at = at + 1;
    }
    proof {
        assert forall|register: Register| register.valid() implies (#[trigger] moves(
            list@,
            register,
        ) <==> choice.names(register)) by {
            if moves(list@, register) {
                let k = choose|k: int|
                    0 <= k < list@.len() && (#[trigger] list@[k]).register == register;
                assert(choice.names(list@[k].register));
            }
        }
        assert forall|register: Register|
            register.valid() && #[trigger] choice.names(register) implies declared.names(
            register,
        ) by {
            assert(moves(list@, register));
        }
    }
    Ok(list)
}

/// What is written back when native code hands guest state out.
pub struct Commit {
    pub stores: Vec<RegisterTransfer>,
    pub status: bool,
}

/// Writes back what has changed.
pub fn commit_registers(dirty: &StateSet, declared: &RegisterChoice) -> (r: Result<
    Commit,
    DirectJitError,
>)
    requires
        declared.wf(),
    ensures
        match r {
            Ok(commit) => {
                &&& commit.status == dirty@.contains(StateItem::Fpsr)
                &&& in_order(commit.stores@)
                &&& forall|register: Register|
                    register.valid() ==> (#[trigger] moves(commit.stores@, register)
                        <==> dirty@.contains(register.item()))
                &&& forall|register: Register|
                    register.valid() && dirty@.contains(#[trigger] register.item())
                        ==> declared.names(register)
            },
            Err(error) => exists|register: Register|
                register.valid() && dirty@.contains(#[trigger] register.item()) && !declared.names(
                    register,
                ) && error.is(DirectJitErrorKind::Internal, dirty_texts().text(register)),
        },
{
    let choice = RegisterChoice::of_set(dirty);
    let texts = MissingTexts {
        general: "dirty direct JIT register has no SSA variable",
        stack_pointer: "dirty direct JIT stack pointer has no SSA variable",
        vector: "dirty direct JIT vector register has no SSA variable",
    };
    match transfers(&choice, declared, &texts) {
        Ok(stores) => {
            proof {
                assert forall|register: Register|
                    register.valid() && dirty@.contains(
                        #[trigger] register.item(),
                    ) implies declared.names(register) by {
                    assert(choice.names(register));
                }
                assert forall|register: Register| register.valid() implies (#[trigger] moves(
                    stores@,
                    register,
                ) <==> dirty@.contains(register.item())) by {
                    assert(choice.names(register) <==> dirty@.contains(register.item()));
                }
            }
            Ok(Commit { stores, status: dirty.fpsr })
        },
        Err(error) => {
            proof {
                let register = choose|register: Register| #[trigger]
                    first_missing(choice, *declared, register) && error.is(
                        DirectJitErrorKind::Internal,
                        texts.text(register),
                    );
                assert(choice.names(register));
                assert(dirty@.contains(register.item()));
            }
            Err(error)
        },
    }
}

pub open spec fn dirty_texts() -> MissingTexts<'static> {
    MissingTexts {
        general: "dirty direct JIT register has no SSA variable",
        stack_pointer: "dirty direct JIT stack pointer has no SSA variable",
        vector: "dirty direct JIT vector register has no SSA variable",
    }
}

pub open spec fn lazy_texts() -> MissingTexts<'static> {
    MissingTexts {
        general: "lazy-loaded direct JIT GPR has no SSA variable",
        stack_pointer: "lazy-loaded direct JIT SP has no SSA variable",
        vector: "lazy-loaded direct JIT vector has no SSA variable",
    }
}

/// Loads the registers that are loaded at the start of a block.
pub fn load_block_registers(
    loads: &RegisterLoadBlocks,
    block: usize,
    declared: &RegisterChoice,
) -> (r: Result<Vec<RegisterTransfer>, DirectJitError>)
    requires
        declared.wf(),
        loads.integer@.len() == 31,
        loads.vector@.len() == 32,
    ensures
        match r {
            Ok(list) => block_loads(list@, *loads, block) && forall|register: Register|
                register.valid() && #[trigger] load_of(*loads, register) == Some(block)
                    ==> declared.names(register),
            Err(error) => exists|register: Register|
                register.valid() && #[trigger] load_of(*loads, register) == Some(block)
                    && !declared.names(register) && error.is(
                    DirectJitErrorKind::Internal,
                    lazy_texts().text(register),
                ),
        },
{
    let choice = RegisterChoice::loaded_at(loads, block);
    let texts = MissingTexts {
        general: "lazy-loaded direct JIT GPR has no SSA variable",
        stack_pointer: "lazy-loaded direct JIT SP has no SSA variable",
        vector: "lazy-loaded direct JIT vector has no SSA variable",
    };
    match transfers(&choice, declared, &texts) {
        Ok(list) => {
            proof {
                assert(moves_choice(list@, choice));
                assert forall|register: Register|
                    register.valid() && #[trigger] load_of(*loads, register) == Some(
                        block,
                    ) implies declared.names(register) by {
                    assert(choice.names(register));
                }
                assert forall|register: Register| register.valid() implies (#[trigger] moves(
                    list@,
                    register,
                ) <==> load_of(*loads, register) == Some(block)) by {
                    assert(choice.names(register) <==> load_of(*loads, register) == Some(block));
                }
            }
            Ok(list)
        },
        Err(error) => {
            proof {
                let register = choose|register: Register| #[trigger]
                    first_missing(choice, *declared, register) && error.is(
                        DirectJitErrorKind::Internal,
                        texts.text(register),
                    );
                assert(choice.names(register));
                assert(load_of(*loads, register) == Some(block));
            }
            Err(error)
        },
    }
}

/// The list moves exactly the registers that are loaded at the start of a block.
pub open spec fn block_loads(
    list: Seq<RegisterTransfer>,
    loads: RegisterLoadBlocks,
    block: usize,
) -> bool {
    &&& in_order(list)
    &&& forall|register: Register|
        register.valid() ==> (#[trigger] moves(list, register) <==> load_of(loads, register) == Some(
            block,
        ))
}

/// What a register number of an operand stands for.
#[derive(Clone, Copy, Debug, PartialEq, Eq, Structural)]
pub enum OperandRegister {
    /// Register 31 where it is not the stack pointer: reads as zero, takes nothing.
    Zero,
    Value { register: Register },
}

pub open spec fn operand_register(index: u8, register31_is_sp: bool) -> OperandRegister {
    if index == 31 {
        if register31_is_sp {
            OperandRegister::Value { register: Register::Sp }
        } else {
            OperandRegister::Zero
        }
    } else {
        OperandRegister::Value { register: Register::X(index) }
    }
}

pub open spec fn unplanned_text(index: u8) -> Seq<char> {
    "direct JIT register X"@ + decimal_of(index as nat) + " was not planned"@
}

/// The register that an operand reads.
pub fn read_register(index: u8, register31_is_sp: bool, declared: &RegisterChoice) -> (r: Result<
    OperandRegister,
    DirectJitError,
>)
    requires
        index < 32,
        declared.wf(),
    ensures
        match r {
            Ok(operand) => {
                &&& operand == operand_register(index, register31_is_sp)
                &&& operand matches OperandRegister::Value { register } ==> declared.names(register)
            },
            Err(error) => {
                &&& operand_register(index, register31_is_sp) matches OperandRegister::Value {
                    register,
                }
                &&& !declared.names(register)
                &&& error.is(DirectJitErrorKind::Internal, unplanned_text(index))
            },
        },
{
    if index == 31 && !register31_is_sp {
        return Ok(OperandRegister::Zero);
    }
    let register = if index == 31 {
        Register::Sp
    } else {
        Register::X(index)
    };
    if declared.chosen[place(register)] {
        Ok(OperandRegister::Value { register })
    } else {
        let detail = String::from_str("direct JIT register X").concat(
            decimal(index as u64).as_str(),
        ).concat(" was not planned");
        Err(DirectJitError::internal(detail.as_str()))
    }
}

/// The register that an operand writes, which then has changed.
pub fn write_register(
    index: u8,
    register31_is_sp: bool,
    declared: &RegisterChoice,
    dirty: &mut RegisterChoice,
) -> (r: Result<OperandRegister, DirectJitError>)
    requires
        index < 32,
        declared.wf(),
        old(dirty).wf(),
    ensures
        final(dirty).wf(),
        match r {
            Ok(operand) => {
                &&& operand == operand_register(index, register31_is_sp)
                &&& match operand {
                    OperandRegister::Zero => final(dirty).chosen@ == old(dirty).chosen@,
                    OperandRegister::Value { register } => declared.names(register)
                        && final(dirty).chosen@ == old(dirty).chosen@.update(rank(register), true),
                }
            },
            Err(error) => {
                &&& operand_register(index, register31_is_sp) matches OperandRegister::Value {
                    register,
                }
                &&& !declared.names(register)
                &&& error.is(DirectJitErrorKind::Internal, unplanned_text(index))
                &&& final(dirty).chosen@ == old(dirty).chosen@
            },
        },
{
    match read_register(index, register31_is_sp, declared) {
        Ok(operand) => {
            if let OperandRegister::Value { register } = operand {
                dirty.chosen.set(place(register), true);
            }
            Ok(operand)
        },
        Err(error) => Err(error),
    }
}

pub open spec fn unplanned_vector_text(index: u8) -> Seq<char> {
    "direct JIT vector V"@ + decimal_of(index as nat) + " was not planned"@
}

/// A vector register that an operand reads.
pub fn read_vector(index: u8, declared: &RegisterChoice) -> (r: Result<Register, DirectJitError>)
    requires
        index < 32,
        declared.wf(),
    ensures
        match r {
            Ok(register) => register == Register::Vector(index) && declared.names(register),
            Err(error) => !declared.names(Register::Vector(index)) && error.is(
                DirectJitErrorKind::Internal,
                unplanned_vector_text(index),
            ),
        },
{
    let register = Register::Vector(index);
    if declared.chosen[place(register)] {
        Ok(register)
    } else {
        let detail = String::from_str("direct JIT vector V").concat(
            decimal(index as u64).as_str(),
        ).concat(" was not planned");
        Err(DirectJitError::internal(detail.as_str()))
    }
}

impl Region {
    /// The registers that have a native value: those that the region reads or
    /// writes.
    pub fn declared(&self, host: HostAbi) -> (r: RegisterChoice)
        requires
            self.wf(),
        ensures
            r.wf(),
            forall|register: Register|
                register.valid() ==> (#[trigger] r.names(register) <==> self.reads(
                    host,
                    register.item(),
                ) || self.writes(host, register.item())),
    {
        let (read, written) = self.region_effects(host);
        let used = read.union(written);
        let r = RegisterChoice::of_set(&used);
        proof {
            assert forall|register: Register| register.valid() implies (#[trigger] r.names(register)
                <==> self.reads(host, register.item()) || self.writes(host, register.item())) by {
                assert(used@.contains(register.item()) <==> read@.contains(register.item())
                    || written@.contains(register.item()));
            }
        }
        r
    }
}

/// The tails through which native code stops, one for each reason and detail, in
/// ascending order.
pub struct ExitTails {
    pub tails: Vec<ExitTail>,
}

#[derive(Clone, Copy, Debug, PartialEq, Eq, Structural)]
pub struct ExitTail {
    pub kind: u32,
    pub detail: u32,
}

pub open spec fn tail_before(a: ExitTail, b: ExitTail) -> bool {
    a.kind < b.kind || (a.kind == b.kind && a.detail < b.detail)
}

impl ExitTails {
    pub open spec fn wf(&self) -> bool {
        forall|i: int, j: int|
            0 <= i < j < self.tails@.len() ==> tail_before(
                #[trigger] self.tails@[i],
                #[trigger] self.tails@[j],
            )
    }

    pub open spec fn has_tail(&self, tail: ExitTail) -> bool {
        self.tails@.contains(tail)
    }

    pub fn new() -> (r: ExitTails)
        ensures
            r.wf(),
            r.tails@.len() == 0,
    {
        ExitTails { tails: Vec::new() }
    }

    /// Stops with a reason and a detail.
    pub fn finish_exit(&mut self, kind: u32, detail: u32)
        requires
            old(self).wf(),
        ensures
            final(self).wf(),
            forall|tail: ExitTail| #[trigger]
                final(self).has_tail(tail) <==> old(self).has_tail(tail) || tail == (ExitTail {
                    kind,
                    detail,
                }),
    {
        let tail = ExitTail { kind, detail };
        let mut at: usize = 0;
        while at < self.tails.len() && (self.tails[at].kind < kind || (self.tails[at].kind == kind
            && self.tails[at].detail < detail))
            invariant
                at <= self.tails@.len(),
                *self == *old(self),
                tail == (ExitTail { kind, detail }),
                forall|k: int| 0 <= k < at ==> tail_before(#[trigger] self.tails@[k], tail),
            decreases self.tails@.len() - at,
        {
            at = at + 1;
        }
        let ghost before = self.tails@;
        if at < self.tails.len() && self.tails[at].kind == kind && self.tails[at].detail == detail {
            proof {
                assert(self.tails@[at as int] == tail);
            }
            return;
        }
        self.tails.insert(at, tail);
        proof {
            assert forall|other: ExitTail| #[trigger] self.has_tail(other) <==> before.contains(
                other,
            ) || other == tail by {
                if before.contains(other) {
                    let k = choose|k: int| 0 <= k < before.len() && before[k] == other;
                    if k < at {
                        assert(self.tails@[k] == other);
                    } else {
                        assert(self.tails@[k + 1] == other);
                    }
                }
                assert(self.tails@[at as int] == tail);
                if self.has_tail(other) {
                    let k = choose|k: int| 0 <= k < self.tails@.len() && self.tails@[k] == other;
                    if k < at {
                        assert(before[k] == other);
                    } else if k > at {
                        assert(before[k - 1] == other);
                    }
                }
            }
            assert forall|i: int, j: int| 0 <= i < j < self.tails@.len() implies tail_before(
                #[trigger] self.tails@[i],
                #[trigger] self.tails@[j],
            ) by {
                let a = if i < at {
                    before[i]
                } else if i == at {
                    tail
                } else {
                    before[i - 1]
                };
                let b = if j < at {
                    before[j]
                } else if j == at {
                    tail
                } else {
                    before[j - 1]
                };
                assert(self.tails@[i] == a && self.tails@[j] == b);
                if i == at && at < before.len() {
                    assert(tail_before(tail, before[at as int]));
                }
            }
        }
    }
}

/// The bytes of a register in its part of guest state.
pub open spec fn holds_byte(register: Register, byte: int) -> bool {
    let size: int = match register {
        Register::Vector(_) => 16,
        _ => 8,
    };
    offset_of(register) <= byte < offset_of(register) + size
}

/// Two general registers share no byte of their part of guest state, nor do two vector
/// registers, and each part is as large as its registers together.
pub proof fn law_registers_lie_apart(a: Register, b: Register, byte: int)
    requires
        a.valid(),
        b.valid(),
        a != b,
        a is X && b is X || a is Vector && b is Vector,
        holds_byte(a, byte),
    ensures
        !holds_byte(b, byte),
        a is X ==> 0 <= byte < 31 * 8,
        a is Vector ==> 0 <= byte < 32 * 16,
{
}

/// Every register has a rank of its own, and the ranks run from zero without a gap.
pub proof fn law_ranks_are_unique(a: Register, b: Register)
    requires
        a.valid(),
        b.valid(),
    ensures
        0 <= rank(a) < REGISTERS,
        rank(a) == rank(b) ==> a == b,
{
}

} // verus!
