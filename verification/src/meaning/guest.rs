//! The state of the guest, and the conditions on its flags.

use vstd::prelude::*;
use crate::analysis::{consumed_flags, flag_bit, StateItem};
use crate::direct::registers::{operand_register, OperandRegister};
use crate::direct::flags::{c_of, computed, condition_holds, n_of, signed, v_of, z_of};
use crate::abi::flags::LazyFlags;

verus! {

/// A state of the guest, by the value of each item. A flag is set where its value is
/// not zero.
pub type Guest = spec_fn(StateItem) -> u128;

/// A general register. Register 31 reads as zero.
pub open spec fn x(guest: Guest, index: u8) -> u64 {
    if index == 31 {
        0
    } else {
        guest(StateItem::X(index)) as u64
    }
}

/// A general register, where register 31 is the stack pointer.
pub open spec fn x_or_sp(guest: Guest, index: u8) -> u64 {
    if index == 31 {
        guest(StateItem::Sp) as u64
    } else {
        guest(StateItem::X(index)) as u64
    }
}

pub open spec fn n(guest: Guest) -> bool {
    guest(StateItem::Flag(3)) != 0
}

pub open spec fn z(guest: Guest) -> bool {
    guest(StateItem::Flag(2)) != 0
}

pub open spec fn c(guest: Guest) -> bool {
    guest(StateItem::Flag(1)) != 0
}

pub open spec fn v(guest: Guest) -> bool {
    guest(StateItem::Flag(0)) != 0
}

/// The condition holds. Conditions come in pairs: the second of each is the opposite of
/// the first, but for the last pair, which always holds.
pub open spec fn holds(condition: u8, n: bool, z: bool, c: bool, v: bool) -> bool {
    let pair = (condition % 16) / 2;
    let base = if pair == 0 {
        z
    } else if pair == 1 {
        c
    } else if pair == 2 {
        n
    } else if pair == 3 {
        v
    } else if pair == 4 {
        c && !z
    } else if pair == 5 {
        n == v
    } else if pair == 6 {
        !z && n == v
    } else {
        true
    };
    if condition % 2 == 1 && pair != 7 {
        !base
    } else {
        base
    }
}

/// The condition holds in the state of the guest.
pub open spec fn met(condition: u8, guest: Guest) -> bool {
    holds(condition, n(guest), z(guest), c(guest), v(guest))
}

/// The bit that native code computes for a condition is the condition.
pub proof fn law_conditions_are_computed(condition: u8, n: bool, z: bool, c: bool, v: bool)
    requires
        condition < 16,
    ensures
        condition_holds(condition, n, z, c, v) == holds(condition, n, z, c, v),
{
}

/// After a subtraction the conditions compare its operands: equal and not equal, unsigned
/// and signed order, and the sign and overflow of the difference.
pub proof fn law_conditions_compare<Value>(
    lhs: Value,
    rhs: Value,
    result: Value,
    width: u8,
    env: spec_fn(Value) -> u64,
)
    requires
        computed(LazyFlags::Subtract { lhs, rhs, result, width }, env),
    ensures
        ({
            let flags = LazyFlags::Subtract { lhs, rhs, result, width };
            let told = |condition: u8|
                condition_holds(
                    condition,
                    n_of(flags, env),
                    z_of(flags, env),
                    c_of(flags, env),
                    v_of(flags, env),
                );
            let (a, b) = (env(lhs), env(rhs));
            let (s, t) = (signed(a, width), signed(b, width));
            &&& told(0) == (a == b)
            &&& told(1) == (a != b)
            &&& told(2) == (a >= b)
            &&& told(3) == (a < b)
            &&& told(8) == (a > b)
            &&& told(9) == (a <= b)
            &&& told(10) == (s >= t)
            &&& told(11) == (s < t)
            &&& told(12) == (s > t)
            &&& told(13) == (s <= t)
            &&& told(14)
            &&& told(15)
            &&& told(4) != told(5)
            &&& told(6) != told(7)
            &&& told(6) ==> told(4) == (s >= t)
            &&& !told(6) ==> told(4) == (s < t)
        }),
{
    let (a, b) = (env(lhs), env(rhs));
    if width == 32 {
        assert((a - b) % 0x1_0000_0000 == if a >= b {
            a - b
        } else {
            a - b + 0x1_0000_0000
        });
    } else {
        assert((a - b) % 0x1_0000_0000_0000_0000 == if a >= b {
            a - b
        } else {
            a - b + 0x1_0000_0000_0000_0000
        });
    }
}

/// After an addition the carry tells that the unsigned sum does not fit, the overflow
/// that the signed sum does not fit, and the sign and zero speak of the sum that is left.
pub proof fn law_sums_tell_their_flags<Value>(
    lhs: Value,
    rhs: Value,
    result: Value,
    width: u8,
    env: spec_fn(Value) -> u64,
)
    requires
        computed(LazyFlags::Add { lhs, rhs, result, width }, env),
    ensures
        ({
            let flags = LazyFlags::Add { lhs, rhs, result, width };
            let (a, b, r) = (env(lhs), env(rhs), env(result));
            let limit: int = if width == 32 {
                0x1_0000_0000
            } else {
                0x1_0000_0000_0000_0000
            };
            let (s, t) = (signed(a, width), signed(b, width));
            &&& r == (if c_of(flags, env) {
                a + b - limit
            } else {
                a + b
            })
            &&& z_of(flags, env) == (r == 0)
            &&& n_of(flags, env) == (r >= limit / 2)
            &&& v_of(flags, env) == (s + t < -(limit / 2) || s + t >= limit / 2)
        }),
{
}

/// Turning a flag in one state of them all tells whether a condition consumes it.
pub proof fn lemma_turned_flag(condition: u8, bit: u8)
    requires
        condition < 16,
        bit < 4,
    ensures
        flag_bit(consumed_flags(condition), bit) <==> holds(condition, false, false, true, false)
            != holds(condition, bit == 3, bit == 2, bit != 1, bit == 0),
{
    assert({
        &&& ((0u8 >> 0u8) & 1 == 0)
        &&& ((0u8 >> 1u8) & 1 == 0)
        &&& ((0u8 >> 2u8) & 1 == 0)
        &&& ((0u8 >> 3u8) & 1 == 0)
        &&& ((1u8 >> 0u8) & 1 == 1)
        &&& ((1u8 >> 1u8) & 1 == 0)
        &&& ((1u8 >> 2u8) & 1 == 0)
        &&& ((1u8 >> 3u8) & 1 == 0)
        &&& ((2u8 >> 0u8) & 1 == 0)
        &&& ((2u8 >> 1u8) & 1 == 1)
        &&& ((2u8 >> 2u8) & 1 == 0)
        &&& ((2u8 >> 3u8) & 1 == 0)
        &&& ((4u8 >> 0u8) & 1 == 0)
        &&& ((4u8 >> 1u8) & 1 == 0)
        &&& ((4u8 >> 2u8) & 1 == 1)
        &&& ((4u8 >> 3u8) & 1 == 0)
        &&& ((8u8 >> 0u8) & 1 == 0)
        &&& ((8u8 >> 1u8) & 1 == 0)
        &&& ((8u8 >> 2u8) & 1 == 0)
        &&& ((8u8 >> 3u8) & 1 == 1)
        &&& ((6u8 >> 0u8) & 1 == 0)
        &&& ((6u8 >> 1u8) & 1 == 1)
        &&& ((6u8 >> 2u8) & 1 == 1)
        &&& ((6u8 >> 3u8) & 1 == 0)
        &&& ((9u8 >> 0u8) & 1 == 1)
        &&& ((9u8 >> 1u8) & 1 == 0)
        &&& ((9u8 >> 2u8) & 1 == 0)
        &&& ((9u8 >> 3u8) & 1 == 1)
        &&& ((13u8 >> 0u8) & 1 == 1)
        &&& ((13u8 >> 1u8) & 1 == 0)
        &&& ((13u8 >> 2u8) & 1 == 1)
        &&& ((13u8 >> 3u8) & 1 == 1)
    }) by (bit_vector);
}

/// A condition consumes a flag exactly where turning that flag can change whether the
/// condition holds.
pub proof fn law_conditions_consume_what_they_test(condition: u8, bit: u8)
    requires
        condition < 16,
        bit < 4,
    ensures
        flag_bit(consumed_flags(condition), bit) <==> exists|n: bool, z: bool, c: bool, v: bool|
            #[trigger] holds(condition, n, z, c, v) != holds(
                condition,
                n != (bit == 3),
                z != (bit == 2),
                c != (bit == 1),
                v != (bit == 0),
            ),
{
    lemma_turned_flag(condition, bit);
    let unset = holds(condition, false, false, true, false);
    assert(flag_bit(consumed_flags(condition), bit) <==> unset != holds(
        condition,
        bit == 3,
        bit == 2,
        bit != 1,
        bit == 0,
    ));
}

/// The value of what an operand stands for.
pub open spec fn operand_value(guest: Guest, operand: OperandRegister) -> u64 {
    match operand {
        OperandRegister::Zero => 0,
        OperandRegister::Value { register } => guest(register.item()) as u64,
    }
}

/// The register that an operand names holds what the guest reads there: with number 31 either
/// zero or the stack pointer.
pub proof fn law_operands_name_what_the_guest_reads(guest: Guest, index: u8)
    requires
        index < 32,
    ensures
        operand_value(guest, operand_register(index, false)) == x(guest, index),
        operand_value(guest, operand_register(index, true)) == x_or_sp(guest, index),
{
}

} // verus!
