//! The conditions under which an instruction takes its host path.

use vstd::prelude::*;
use super::guards::{finite_or_zero, is_negative, is_scalar_arithmetic, is_zero};
use super::plan::is_guarded;
use crate::decode::{FpSimdInstruction, FpSimdKind};

verus! {

/// One condition for the host path, on some lanes of a register.
#[derive(Clone, Copy, Debug, PartialEq, Eq, Structural)]
pub enum FpCheck {
    /// The host runs in the guest's rounding mode.
    NativeEnabled,
    FiniteOrZero { register: u8, first: u8, count: u8 },
    Nonzero { register: u8, first: u8, count: u8 },
    /// The low lane is zero of either sign, or positive.
    NotNegative { register: u8 },
}

/// The contents of the registers are given lane by lane.
pub open spec fn lane_finite(bits: Seq<Seq<u64>>, register: u8, lane: int, wide: bool) -> bool {
    finite_or_zero(bits[register as int][lane], wide)
}

pub open spec fn lane_zero(bits: Seq<Seq<u64>>, register: u8, lane: int, wide: bool) -> bool {
    is_zero(bits[register as int][lane], wide)
}

pub open spec fn lanes_finite(
    bits: Seq<Seq<u64>>,
    register: u8,
    first: u8,
    count: u8,
    wide: bool,
) -> bool {
    forall|lane: int|
        first <= lane < first + count ==> #[trigger] lane_finite(bits, register, lane, wide)
}

pub open spec fn lanes_nonzero(
    bits: Seq<Seq<u64>>,
    register: u8,
    first: u8,
    count: u8,
    wide: bool,
) -> bool {
    forall|lane: int|
        first <= lane < first + count ==> !#[trigger] lane_zero(bits, register, lane, wide)
}

pub open spec fn check_holds(check: FpCheck, wide: bool, native: bool, bits: Seq<Seq<u64>>) -> bool {
    match check {
        FpCheck::NativeEnabled => native,
        FpCheck::FiniteOrZero { register, first, count } => lanes_finite(
            bits,
            register,
            first,
            count,
            wide,
        ),
        FpCheck::Nonzero { register, first, count } => lanes_nonzero(
            bits,
            register,
            first,
            count,
            wide,
        ),
        FpCheck::NotNegative { register } => !is_negative(bits[register as int][0], wide) || lane_zero(
            bits,
            register,
            0,
            wide,
        ),
    }
}

pub open spec fn all_hold(
    checks: Seq<FpCheck>,
    wide: bool,
    native: bool,
    bits: Seq<Seq<u64>>,
) -> bool {
    forall|k: int|
        0 <= k < checks.len() ==> check_holds(#[trigger] checks[k], wide, native, bits)
}

/// The number of lanes that vector arithmetic works on.
pub open spec fn arithmetic_lanes(instruction: FpSimdInstruction) -> u8 {
    if instruction.operands.opc == 0 && instruction.operands.vector_128 {
        4
    } else {
        2
    }
}

/// The operands of scalar arithmetic are such that the host and the guest agree: no
/// number is subnormal, infinite or no number, no divisor is zero and no root is of
/// a negative number.
pub open spec fn scalar_guard(instruction: FpSimdInstruction, wide: bool, bits: Seq<Seq<u64>>) -> bool {
    let fields = instruction.operands;
    &&& lane_finite(bits, fields.rn, 0, wide)
    &&& !(instruction.kind is ScalarFloatSquareRoot) ==> lane_finite(bits, fields.rm, 0, wide)
    &&& instruction.kind is ScalarFloatDivide ==> !lane_zero(bits, fields.rm, 0, wide)
    &&& instruction.kind is ScalarFloatSquareRoot ==> !is_negative(bits[fields.rn as int][0], wide)
        || lane_zero(bits, fields.rn, 0, wide)
    &&& instruction.kind is ScalarFloatFusedMultiplyAdd ==> lane_finite(bits, fields.ra, 0, wide)
}

/// The same of every lane of vector arithmetic.
pub open spec fn vector_guard(instruction: FpSimdInstruction, wide: bool, bits: Seq<Seq<u64>>) -> bool {
    let fields = instruction.operands;
    let lanes = arithmetic_lanes(instruction);
    &&& lanes_finite(bits, fields.rn, 0, lanes, wide)
    &&& if instruction.kind is VectorFloatDivide {
        &&& lanes_finite(bits, fields.rm, 0, lanes, wide)
        &&& lanes_nonzero(bits, fields.rm, 0, lanes, wide)
    } else {
        lane_finite(bits, fields.rm, fields.fp_element_lane as int, wide)
    }
}

/// The instruction takes its host path.
pub open spec fn takes_host_path(
    instruction: FpSimdInstruction,
    wide: bool,
    native: bool,
    bits: Seq<Seq<u64>>,
) -> bool {
    let fields = instruction.operands;
    if is_scalar_arithmetic(instruction.kind) {
        native && scalar_guard(instruction, wide, bits)
    } else {
        match instruction.kind {
            FpSimdKind::VectorFloatDivide | FpSimdKind::VectorFloatMultiplyElement => native
                && vector_guard(instruction, wide, bits),
            FpSimdKind::CompareRegister => lane_finite(bits, fields.rn, 0, wide) && lane_finite(
                bits,
                fields.rm,
                0,
                wide,
            ),
            FpSimdKind::CompareZero | FpSimdKind::ScalarFloatRound => lane_finite(
                bits,
                fields.rn,
                0,
                wide,
            ),
            FpSimdKind::ScalarFloatConvert
            | FpSimdKind::FloatToSignedInt
            | FpSimdKind::FloatToUnsignedInt => native && lane_finite(bits, fields.rn, 0, wide),
            _ => native,
        }
    }
}

/// The checks let exactly those operands through.
pub open spec fn checks_guard(instruction: FpSimdInstruction, checks: Seq<FpCheck>) -> bool {
    forall|wide: bool, native: bool, bits: Seq<Seq<u64>>| #[trigger]
        all_hold(checks, wide, native, bits) <==> takes_host_path(instruction, wide, native, bits)
}

/// The conditions of the host path.
pub fn host_checks(instruction: FpSimdInstruction) -> (r: Vec<FpCheck>)
    requires
        is_guarded(instruction.kind),
    ensures
        checks_guard(instruction, r@),
{
    let fields = instruction.operands;
    let first = FpCheck::FiniteOrZero { register: fields.rn, first: 0, count: 1 };
    let second = FpCheck::FiniteOrZero { register: fields.rm, first: 0, count: 1 };
    let mut checks: Vec<FpCheck> = Vec::new();
    match instruction.kind {
        FpSimdKind::ScalarFloatAdd | FpSimdKind::ScalarFloatMultiply => {
            checks.push(first);
            checks.push(second);
            checks.push(FpCheck::NativeEnabled);
            proof {
                lemma_three(checks@, first, second, FpCheck::NativeEnabled);
            }
        },
        FpSimdKind::ScalarFloatFusedMultiplyAdd => {
            let third = FpCheck::FiniteOrZero { register: fields.ra, first: 0, count: 1 };
            checks.push(first);
            checks.push(second);
            checks.push(third);
            checks.push(FpCheck::NativeEnabled);
            proof {
                lemma_four(checks@, first, second, third, FpCheck::NativeEnabled);
            }
        },
        FpSimdKind::ScalarFloatDivide => {
            let nonzero = FpCheck::Nonzero { register: fields.rm, first: 0, count: 1 };
            checks.push(first);
            checks.push(second);
            checks.push(nonzero);
            checks.push(FpCheck::NativeEnabled);
            proof {
                lemma_four(checks@, first, second, nonzero, FpCheck::NativeEnabled);
            }
        },
        FpSimdKind::ScalarFloatSquareRoot => {
            let positive = FpCheck::NotNegative { register: fields.rn };
            checks.push(first);
            checks.push(positive);
            checks.push(FpCheck::NativeEnabled);
            proof {
                lemma_three(checks@, first, positive, FpCheck::NativeEnabled);
            }
        },
        FpSimdKind::VectorFloatDivide => {
            let count: u8 = active_lanes(instruction);
            let all_first = FpCheck::FiniteOrZero { register: fields.rn, first: 0, count };
            let all_second = FpCheck::FiniteOrZero { register: fields.rm, first: 0, count };
            let nonzero = FpCheck::Nonzero { register: fields.rm, first: 0, count };
            checks.push(all_first);
            checks.push(all_second);
            checks.push(nonzero);
            checks.push(FpCheck::NativeEnabled);
            proof {
                lemma_four(checks@, all_first, all_second, nonzero, FpCheck::NativeEnabled);
            }
        },
        FpSimdKind::VectorFloatMultiplyElement => {
            let count: u8 = active_lanes(instruction);
            let element = FpCheck::FiniteOrZero {
                register: fields.rm,
                first: fields.fp_element_lane,
                count: 1,
            };
            let all_first = FpCheck::FiniteOrZero { register: fields.rn, first: 0, count };
            checks.push(element);
            checks.push(all_first);
            checks.push(FpCheck::NativeEnabled);
            proof {
                lemma_three(checks@, element, all_first, FpCheck::NativeEnabled);
            }
        },
        FpSimdKind::CompareRegister => {
            checks.push(first);
            checks.push(second);
            proof {
                lemma_two(checks@, first, second);
            }
        },
        FpSimdKind::CompareZero | FpSimdKind::ScalarFloatRound => {
            checks.push(first);
            proof {
                lemma_one(checks@, first);
            }
        },
        FpSimdKind::ScalarFloatConvert
        | FpSimdKind::FloatToSignedInt
        | FpSimdKind::FloatToUnsignedInt => {
            checks.push(first);
            checks.push(FpCheck::NativeEnabled);
            proof {
                lemma_two(checks@, first, FpCheck::NativeEnabled);
            }
        },
        _ => {
            checks.push(FpCheck::NativeEnabled);
            proof {
                lemma_one(checks@, FpCheck::NativeEnabled);
            }
        },
    }
    proof {
        assert forall|wide: bool, native: bool, bits: Seq<Seq<u64>>| #[trigger]
            all_hold(checks@, wide, native, bits) <==> takes_host_path(
                instruction,
                wide,
                native,
                bits,
            ) by {
            lemma_one_lane(fields.rn, 0, wide, bits);
            lemma_one_lane(fields.rm, 0, wide, bits);
            lemma_one_lane(fields.ra, 0, wide, bits);
            lemma_one_lane(fields.rm, fields.fp_element_lane, wide, bits);
        }
    }
    checks
}

fn active_lanes(instruction: FpSimdInstruction) -> (r: u8)
    ensures
        r == arithmetic_lanes(instruction),
{
    if instruction.operands.opc == 0 && instruction.operands.vector_128 {
        4
    } else {
        2
    }
}

/// A check of one lane is about that lane.
proof fn lemma_one_lane(register: u8, lane: u8, wide: bool, bits: Seq<Seq<u64>>)
    ensures
        lanes_finite(bits, register, lane, 1, wide) == lane_finite(
            bits,
            register,
            lane as int,
            wide,
        ),
        lanes_nonzero(bits, register, lane, 1, wide) == !lane_zero(
            bits,
            register,
            lane as int,
            wide,
        ),
{
}

proof fn lemma_one(checks: Seq<FpCheck>, a: FpCheck)
    requires
        checks =~= seq![a],
    ensures
        forall|wide: bool, native: bool, bits: Seq<Seq<u64>>| #[trigger]
            all_hold(checks, wide, native, bits) <==> check_holds(a, wide, native, bits),
{
    assert(checks[0] == a);
}

proof fn lemma_two(checks: Seq<FpCheck>, a: FpCheck, b: FpCheck)
    requires
        checks =~= seq![a, b],
    ensures
        forall|wide: bool, native: bool, bits: Seq<Seq<u64>>| #[trigger]
            all_hold(checks, wide, native, bits) <==> check_holds(a, wide, native, bits)
                && check_holds(b, wide, native, bits),
{
    assert(checks[0] == a);
    assert(checks[1] == b);
}

proof fn lemma_three(checks: Seq<FpCheck>, a: FpCheck, b: FpCheck, c: FpCheck)
    requires
        checks =~= seq![a, b, c],
    ensures
        forall|wide: bool, native: bool, bits: Seq<Seq<u64>>| #[trigger]
            all_hold(checks, wide, native, bits) <==> check_holds(a, wide, native, bits)
                && check_holds(b, wide, native, bits) && check_holds(c, wide, native, bits),
{
    assert(checks[0] == a);
    assert(checks[1] == b);
    assert(checks[2] == c);
}

proof fn lemma_four(checks: Seq<FpCheck>, a: FpCheck, b: FpCheck, c: FpCheck, d: FpCheck)
    requires
        checks =~= seq![a, b, c, d],
    ensures
        forall|wide: bool, native: bool, bits: Seq<Seq<u64>>| #[trigger]
            all_hold(checks, wide, native, bits) <==> check_holds(a, wide, native, bits)
                && check_holds(b, wide, native, bits) && check_holds(c, wide, native, bits)
                && check_holds(d, wide, native, bits),
{
    assert(checks[0] == a);
    assert(checks[1] == b);
    assert(checks[2] == c);
    assert(checks[3] == d);
}

} // verus!
