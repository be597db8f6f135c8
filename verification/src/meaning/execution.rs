//! What integer, memory, system and control instructions do.

use vstd::prelude::*;
use vstd::arithmetic::power2::pow2;
use super::branches::taken;
use super::guest::{c, met, n, v, x, x_or_sp, z, Guest};
use crate::analysis::StateItem;
use crate::decode::{
    ControlInstruction, ControlKind, IntegerInstruction, IntegerKind, MemoryInstruction, MemoryKind,
    ScalarTransfer, SystemInstruction, SystemKind,
};

verus! {

/// What an instruction depends on beside its normalized fields and the state of the
/// guest: the rest of its encoding, its address, and what the world outside answers.
pub ghost struct Setting {
    pub pc: u64,
    /// The operation is 64 bits wide.
    pub wide: bool,
    pub immediate: u64,
    /// The kind of shift or extension of the last operand, and by how much.
    pub shift: u8,
    pub amount: nat,
    /// The last operand is inverted, or the product subtracted.
    pub invert: bool,
    /// A selected operand is incremented.
    pub increment: bool,
    /// The bits that a bitfield takes from its source.
    pub mask: u64,
    pub nzcv: u8,
    /// Where a branch or a literal points.
    pub target: u64,
    /// The bytes of one element of a pair.
    pub step: u64,
    /// What memory holds at each address.
    pub data: spec_fn(u64) -> u128,
    /// Operations that are given by their operands alone.
    pub other: spec_fn(Seq<u128>) -> u128,
    /// An exclusive store goes through.
    pub accepted: bool,
    /// What a register of the system outside the guest holds.
    pub outside: u64,
}

/// What an instruction does: the items it gives new values, what it tells the world, by
/// address or number, and where it goes on.
#[verifier::ext_equal]
pub ghost struct Outcome {
    pub written: Map<StateItem, u128>,
    pub told: Seq<(u64, Option<u128>)>,
    pub next: int,
}

pub open spec fn nothing() -> Map<StateItem, u128> {
    Map::empty()
}

pub open spec fn set_x(index: u8, value: u64) -> Map<StateItem, u128> {
    if index == 31 {
        nothing()
    } else {
        map![StateItem::X(index) => value as u128]
    }
}

pub open spec fn set_x_or_sp(index: u8, value: u64) -> Map<StateItem, u128> {
    if index == 31 {
        map![StateItem::Sp => value as u128]
    } else {
        map![StateItem::X(index) => value as u128]
    }
}

pub open spec fn flag_value(flag: bool) -> u128 {
    if flag {
        1
    } else {
        0
    }
}

pub open spec fn set_flags(n: bool, z: bool, c: bool, v: bool) -> Map<StateItem, u128> {
    map![
        StateItem::Flag(3) => flag_value(n),
        StateItem::Flag(2) => flag_value(z),
        StateItem::Flag(1) => flag_value(c),
        StateItem::Flag(0) => flag_value(v)
    ]
}

pub open spec fn both(
    first: Map<StateItem, u128>,
    second: Map<StateItem, u128>,
) -> Map<StateItem, u128> {
    first.union_prefer_right(second)
}

pub open spec fn next_instruction(s: Setting) -> int {
    (s.pc + 4) % 0x1_0000_0000_0000_0000
}

/// The instruction only computes.
pub open spec fn computes(written: Map<StateItem, u128>, s: Setting) -> Outcome {
    Outcome { written, told: Seq::empty(), next: next_instruction(s) }
}

// ---- integer data processing ----
pub open spec fn limit(s: Setting) -> int {
    if s.wide {
        0x1_0000_0000_0000_0000
    } else {
        0x1_0000_0000
    }
}

/// The part of a value that the operation works on.
pub open spec fn low(s: Setting, value: u64) -> int {
    value as int % limit(s)
}

pub open spec fn wrapped(s: Setting, value: int) -> u64 {
    (value % limit(s)) as u64
}

pub open spec fn number(s: Setting, value: int) -> int {
    if value < limit(s) / 2 {
        value
    } else {
        value - limit(s)
    }
}

/// A shifted register: left, right, right with the sign, or around.
pub open spec fn shifted(s: Setting, value: int) -> int {
    let power = pow2(s.amount) as int;
    if s.shift == 0 {
        (value * power) % limit(s)
    } else if s.shift == 1 {
        value / power
    } else if s.shift == 2 {
        (number(s, value) / power) % limit(s)
    } else {
        (value / power + (value % power) * (limit(s) / power)) % limit(s)
    }
}

/// An extended register: the low part of it, with its sign or without, shifted left.
pub open spec fn extended(s: Setting, value: u64) -> int {
    let bits = pow2((8 * pow2((s.shift % 4) as nat)) as nat) as int;
    let part = value as int % bits;
    let extended = if s.shift >= 4 && part >= bits / 2 {
        part - bits
    } else {
        part
    };
    (extended * pow2(s.amount)) % limit(s)
}

pub open spec fn inverted(s: Setting, value: int) -> int {
    limit(s) - 1 - value
}

/// The sum of two operands and a carry, with the flags it leaves.
pub open spec fn sum_flags(s: Setting, a: int, b: int, carry: int) -> Map<StateItem, u128> {
    let result = (a + b + carry) % limit(s);
    let exact = number(s, a) + number(s, b) + carry;
    set_flags(
        result >= limit(s) / 2,
        result == 0,
        a + b + carry >= limit(s),
        exact < -(limit(s) / 2) || exact >= limit(s) / 2,
    )
}

/// An addition or a subtraction: a subtraction adds the inverted operand, and a carry.
/// It writes its register, or with flags those too, and never the stack pointer then.
pub open spec fn add_sub(
    i: IntegerInstruction,
    s: Setting,
    a: int,
    b: int,
    carry: int,
    to_sp: bool,
) -> Map<StateItem, u128> {
    let operand = if i.subtract {
        inverted(s, b)
    } else {
        b
    };
    let result = wrapped(s, a + operand + carry);
    if i.set_flags {
        both(set_x(i.rd, result), sum_flags(s, a, operand, carry))
    } else if to_sp {
        set_x_or_sp(i.rd, result)
    } else {
        set_x(i.rd, result)
    }
}

pub open spec fn borrow(i: IntegerInstruction) -> int {
    if i.subtract {
        1
    } else {
        0
    }
}

/// And, or, exclusive or, and the and that sets flags.
pub open spec fn logical(
    i: IntegerInstruction,
    s: Setting,
    a: int,
    b: int,
    to_sp: bool,
) -> Map<StateItem, u128> {
    let (p, q) = (a as u64, b as u64);
    let result = if i.subtract == i.set_flags {
        p & q
    } else if i.subtract {
        p ^ q
    } else {
        p | q
    };
    if i.subtract && i.set_flags {
        both(
            set_x(i.rd, result),
            set_flags(result >= limit(s) / 2, result == 0, false, false),
        )
    } else if to_sp {
        set_x_or_sp(i.rd, result)
    } else {
        set_x(i.rd, result)
    }
}

/// The register that is selected where the condition does not hold: as it is, negated in
/// part, or incremented.
pub open spec fn second_choice(i: IntegerInstruction, s: Setting, b: int) -> u64 {
    let base = if i.subtract {
        inverted(s, b)
    } else {
        b
    };
    wrapped(
        s,
        if s.increment {
            base + 1
        } else {
            base
        },
    )
}

/// Bits of one value under the mask, of the other elsewhere.
pub open spec fn mixed(s: Setting, under: u64, elsewhere: u64) -> u64 {
    (under & s.mask) | (elsewhere & !s.mask)
}

pub open spec fn half_number(value: u64, unsigned: bool) -> int {
    let low = value as int % 0x1_0000_0000;
    if unsigned || low < 0x8000_0000 {
        low
    } else {
        low - 0x1_0000_0000
    }
}

pub open spec fn whole_number(value: u64) -> int {
    if value < 0x8000_0000_0000_0000 {
        value as int
    } else {
        value - 0x1_0000_0000_0000_0000
    }
}

/// The product of the first two registers, added to or taken from the third; or the high
/// half of a wide product, which has no third register.
pub open spec fn product(i: IntegerInstruction, s: Setting, a: u64, b: u64, third: u64) -> u64 {
    let signed = if s.invert {
        -1int
    } else {
        1int
    };
    if i.opcode_3 == 2 {
        ((whole_number(a) * whole_number(b)) / 0x1_0000_0000_0000_0000
            % 0x1_0000_0000_0000_0000) as u64
    } else if i.opcode_3 == 6 {
        ((a as int * b as int) / 0x1_0000_0000_0000_0000) as u64
    } else if i.opcode_3 == 1 || i.opcode_3 == 5 {
        let unsigned = i.opcode_3 == 5;
        ((third as int + signed * (half_number(a, unsigned) * half_number(b, unsigned)))
            % 0x1_0000_0000_0000_0000) as u64
    } else {
        wrapped(s, low(s, third) + signed * (low(s, a) * low(s, b)))
    }
}

/// A conditional compare leaves the flags of a comparison where its condition holds, and
/// those of its encoding elsewhere.
pub open spec fn compared(i: IntegerInstruction, s: Setting, g: Guest, b: int) -> Map<
    StateItem,
    u128,
> {
    if met(i.condition, g) {
        if i.subtract {
            sum_flags(s, low(s, x(g, i.rn)), inverted(s, b), 1)
        } else {
            sum_flags(s, low(s, x(g, i.rn)), b, 0)
        }
    } else {
        set_flags(
            s.nzcv / 8 % 2 == 1,
            s.nzcv / 4 % 2 == 1,
            s.nzcv / 2 % 2 == 1,
            s.nzcv % 2 == 1,
        )
    }
}

pub open spec fn integer_written(i: IntegerInstruction, s: Setting, g: Guest) -> Map<
    StateItem,
    u128,
> {
    let a = x(g, i.rn);
    let b = x(g, i.rm);
    match i.kind {
        IntegerKind::MoveWide => {
            // MOVN, MOVZ, and MOVK, which keeps the rest of the register.
            let moved = s.immediate;
            set_x(
                i.rd,
                if i.subtract && i.set_flags {
                    mixed(s, moved, x(g, i.rd))
                } else if i.subtract {
                    moved
                } else {
                    inverted(s, moved as int) as u64
                },
            )
        },
        IntegerKind::AddSubImmediate => add_sub(
            i,
            s,
            low(s, x_or_sp(g, i.rn)),
            low(s, s.immediate),
            borrow(i),
            true,
        ),
        IntegerKind::AddSubExtended => add_sub(
            i,
            s,
            low(s, x_or_sp(g, i.rn)),
            extended(s, b),
            borrow(i),
            true,
        ),
        IntegerKind::AddSubShifted => add_sub(
            i,
            s,
            low(s, a),
            shifted(s, low(s, b)),
            borrow(i),
            false,
        ),
        IntegerKind::AddSubCarry => add_sub(
            i,
            s,
            low(s, a),
            low(s, b),
            if c(g) {
                1
            } else {
                0
            },
            false,
        ),
        IntegerKind::LogicalImmediate => logical(i, s, low(s, a), low(s, s.immediate), true),
        IntegerKind::LogicalShifted => logical(
            i,
            s,
            low(s, a),
            if s.invert {
                inverted(s, shifted(s, low(s, b)))
            } else {
                shifted(s, low(s, b))
            },
            false,
        ),
        IntegerKind::Extract => set_x(
            i.rd,
            wrapped(s, (low(s, a) * limit(s) + low(s, b)) / pow2(s.amount) as int),
        ),
        IntegerKind::TwoSource => set_x(i.rd, (s.other)(seq![a as u128, b as u128]) as u64),
        IntegerKind::ConditionalSelect => set_x(
            i.rd,
            if met(i.condition, g) {
                wrapped(s, low(s, a))
            } else {
                second_choice(i, s, low(s, b))
            },
        ),
        IntegerKind::Bitfield => {
            let field = (s.other)(seq![a as u128]) as u64;
            set_x(
                i.rd,
                if !i.subtract && i.set_flags {
                    mixed(s, field, x(g, i.rd))
                } else {
                    field
                },
            )
        },
        IntegerKind::ConditionalCompareRegister => compared(i, s, g, low(s, b)),
        IntegerKind::ConditionalCompareImmediate => compared(i, s, g, low(s, s.immediate)),
        IntegerKind::ThreeSource => set_x(i.rd, product(i, s, a, b, x(g, i.ra))),
        IntegerKind::OneSource => set_x(i.rd, (s.other)(seq![a as u128]) as u64),
        IntegerKind::Adr => set_x(
            i.rd,
            ((s.pc + s.immediate) % 0x1_0000_0000_0000_0000) as u64,
        ),
        IntegerKind::Adrp => set_x(
            i.rd,
            ((s.pc - s.pc % 0x1000 + s.immediate) % 0x1_0000_0000_0000_0000) as u64,
        ),
    }
}

pub open spec fn run_integer(i: IntegerInstruction, s: Setting, g: Guest) -> Outcome {
    computes(integer_written(i, s, g), s)
}

// ---- integer loads and stores ----
pub open spec fn offset(base: u64, by: int) -> u64 {
    ((base + by) % 0x1_0000_0000_0000_0000) as u64
}

pub open spec fn accesses(
    written: Map<StateItem, u128>,
    told: Seq<(u64, Option<u128>)>,
    s: Setting,
) -> Outcome {
    Outcome { written, told, next: next_instruction(s) }
}

/// A load, a store, or a hint that only names the address.
pub open spec fn single_access(
    i: MemoryInstruction,
    s: Setting,
    g: Guest,
    address: u64,
    back: Map<StateItem, u128>,
) -> Outcome {
    match i.transfer {
        Some(ScalarTransfer::Load) => accesses(
            both(back, set_x(i.rt, (s.data)(address) as u64)),
            seq![(address, None)],
            s,
        ),
        Some(ScalarTransfer::Store) => accesses(
            back,
            seq![(address, Some(x(g, i.rt) as u128))],
            s,
        ),
        None => accesses(back, seq![(address, None)], s),
    }
}

pub open spec fn pair_access(
    i: MemoryInstruction,
    s: Setting,
    g: Guest,
    address: u64,
    back: Map<StateItem, u128>,
) -> Outcome {
    let upper = offset(address, s.step as int);
    if i.load {
        accesses(
            both(
                back,
                both(
                    set_x(i.rt, (s.data)(address) as u64),
                    set_x(i.rt2, (s.data)(upper) as u64),
                ),
            ),
            seq![(address, None), (upper, None)],
            s,
        )
    } else {
        accesses(
            back,
            seq![(address, Some(x(g, i.rt) as u128)), (upper, Some(x(g, i.rt2) as u128))],
            s,
        )
    }
}

pub open spec fn run_memory(i: MemoryInstruction, s: Setting, g: Guest) -> Outcome {
    let base = x_or_sp(g, i.rn);
    let moved = offset(base, s.immediate as int);
    match i.kind {
        MemoryKind::Literal => accesses(
            set_x(i.rt, (s.data)(s.target) as u64),
            seq![(s.target, None)],
            s,
        ),
        MemoryKind::Unsigned | MemoryKind::Unscaled => single_access(i, s, g, moved, nothing()),
        MemoryKind::PostIndex => single_access(i, s, g, base, set_x_or_sp(i.rn, moved)),
        MemoryKind::PreIndex => single_access(i, s, g, moved, set_x_or_sp(i.rn, moved)),
        MemoryKind::Register => single_access(
            i,
            s,
            g,
            offset(base, extended(s, x(g, i.rm))),
            nothing(),
        ),
        MemoryKind::Pair => if !i.pair_allocated {
            computes(nothing(), s)
        } else if i.mode == 1 {
            pair_access(i, s, g, base, set_x_or_sp(i.rn, moved))
        } else if i.mode == 3 {
            pair_access(i, s, g, moved, set_x_or_sp(i.rn, moved))
        } else {
            pair_access(i, s, g, moved, nothing())
        },
        MemoryKind::LoadAcquire | MemoryKind::LoadExclusive => accesses(
            set_x(i.rt, (s.data)(base) as u64),
            seq![(base, None)],
            s,
        ),
        MemoryKind::LoadExclusivePair => accesses(
            both(
                set_x(i.rt, (s.data)(base) as u64),
                set_x(i.rt2, (s.data)(offset(base, s.step as int)) as u64),
            ),
            seq![(base, None)],
            s,
        ),
        MemoryKind::StoreRelease => accesses(
            nothing(),
            seq![(base, Some(x(g, i.rt) as u128))],
            s,
        ),
        MemoryKind::StoreExclusive => accesses(
            set_x(
                i.rm,
                if s.accepted {
                    0
                } else {
                    1
                },
            ),
            if s.accepted {
                seq![(base, Some(x(g, i.rt) as u128))]
            } else {
                seq![(base, None)]
            },
            s,
        ),
        MemoryKind::StoreExclusivePair => accesses(
            set_x(
                i.rm,
                if s.accepted {
                    0
                } else {
                    1
                },
            ),
            if s.accepted {
                seq![
                    (base, Some(x(g, i.rt) as u128)),
                    (offset(base, s.step as int), Some(x(g, i.rt2) as u128)),
                ]
            } else {
                seq![(base, None)]
            },
            s,
        ),
        MemoryKind::AtomicReadModifyWrite => accesses(
            set_x(i.rt, (s.data)(base) as u64),
            seq![(base, Some((s.other)(seq![(s.data)(base), x(g, i.rm) as u128])))],
            s,
        ),
        MemoryKind::CompareAndSwap => accesses(
            set_x(i.rm, (s.data)(base) as u64),
            if (s.data)(base) == x(g, i.rm) {
                seq![(base, Some(x(g, i.rt) as u128))]
            } else {
                seq![(base, None)]
            },
            s,
        ),
        MemoryKind::CompareAndSwapPair => {
            let upper = offset(base, s.step as int);
            accesses(
                both(
                    set_x(i.rm, (s.data)(base) as u64),
                    set_x((i.rm + 1) as u8, (s.data)(upper) as u64),
                ),
                if (s.data)(base) == x(g, i.rm) && (s.data)(upper) == x(g, (i.rm + 1) as u8) {
                    seq![
                        (base, Some(x(g, i.rt) as u128)),
                        (upper, Some(x(g, (i.rt + 1) as u8) as u128)),
                    ]
                } else {
                    seq![(base, None)]
                },
                s,
            )
        },
    }
}

// ---- system ----
pub open spec fn packed(n: bool, z: bool, c: bool, v: bool) -> u64 {
    (0x8000_0000 * flag_value(n) + 0x4000_0000 * flag_value(z) + 0x2000_0000 * flag_value(c)
        + 0x1000_0000 * flag_value(v)) as u64
}

/// Registers of the system: the flags, the floating-point controls and status, and the
/// two thread registers are the guest's own, by the words that read and write them.
pub open spec fn run_system(i: SystemInstruction, s: Setting, g: Guest) -> Outcome {
    let value = x(g, i.rt);
    match i.kind {
        SystemKind::ReadRegister => computes(
            set_x(
                i.rt,
                if i.system_key == 0xd53b_4200 {
                    packed(n(g), z(g), c(g), v(g))
                } else if i.system_key == 0xd53b_4400 {
                    g(StateItem::Fpcr) as u64
                } else if i.system_key == 0xd53b_4420 {
                    g(StateItem::Fpsr) as u64
                } else if i.system_key == 0xd53b_d040 {
                    g(StateItem::TpidrEl0) as u64
                } else if i.system_key == 0xd53b_d060 {
                    g(StateItem::TpidrroEl0) as u64
                } else {
                    s.outside
                },
            ),
            s,
        ),
        SystemKind::WriteRegister => if i.system_key == 0xd51b_4200 {
            computes(
                set_flags(
                    value / 0x8000_0000 % 2 == 1,
                    value / 0x4000_0000 % 2 == 1,
                    value / 0x2000_0000 % 2 == 1,
                    value / 0x1000_0000 % 2 == 1,
                ),
                s,
            )
        } else if i.system_key == 0xd51b_4400 {
            computes(map![StateItem::Fpcr => value as u128], s)
        } else if i.system_key == 0xd51b_4420 {
            computes(map![StateItem::Fpsr => value as u128], s)
        } else if i.system_key == 0xd51b_d040 {
            computes(map![StateItem::TpidrEl0 => value as u128], s)
        } else {
            accesses(nothing(), seq![(i.system_key as u64, Some(value as u128))], s)
        },
        SystemKind::System => if i.system_key == 0xd508_7500 {
            accesses(nothing(), seq![(i.system_key as u64, None)], s)
        } else {
            accesses(nothing(), seq![(i.system_key as u64, Some(value as u128))], s)
        },
        // Hints one to five ask the scheduler for something.
        SystemKind::Hint => if 1 <= i.hint <= 5 {
            accesses(nothing(), seq![(i.hint as u64, None)], s)
        } else {
            computes(nothing(), s)
        },
        SystemKind::Barrier | SystemKind::ClearExclusive => accesses(
            nothing(),
            seq![(i.system_key as u64, None)],
            s,
        ),
    }
}

// ---- control ----
pub open spec fn goes(written: Map<StateItem, u128>, next: int) -> Outcome {
    Outcome { written, told: Seq::empty(), next }
}

pub open spec fn link(s: Setting) -> Map<StateItem, u128> {
    map![StateItem::X(30) => next_instruction(s) as u128]
}

pub open spec fn run_control(i: ControlInstruction, s: Setting, g: Guest) -> Outcome {
    match i.kind {
        ControlKind::BranchImmediate => goes(nothing(), s.target as int),
        ControlKind::BranchLinkImmediate => goes(link(s), s.target as int),
        ControlKind::BranchRegister => goes(
            if i.branch_register_key == 0xd63f_0000 {
                link(s)
            } else {
                nothing()
            },
            x(g, i.rn) as int,
        ),
        ControlKind::CompareBranch
        | ControlKind::TestBranch
        | ControlKind::ConditionalBranch => goes(
            nothing(),
            if taken(i, g) {
                s.target as int
            } else {
                next_instruction(s)
            },
        ),
        ControlKind::SupervisorCall | ControlKind::Breakpoint => goes(nothing(), s.pc as int),
        ControlKind::Nop => goes(nothing(), next_instruction(s)),
    }
}

} // verus!
