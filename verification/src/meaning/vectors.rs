//! What vector instructions compute, byte by byte and lane by lane, and what the plans
//! of the compiler compute.

use vstd::prelude::*;
use vstd::arithmetic::power2::pow2;
use super::guest::{c, n, v, x, z, Guest};
use crate::analysis::StateItem;
use crate::decode::{
    BitwiseOperation, FpSimdInstruction, FpSimdKind, FpSimdOperands, IntegerComparison,
    PairwiseOperation, PermuteOperation,
};
use crate::direct::flags::condition_holds;
use crate::simd::plan::{GeneralPart, LaneOperation, PlanRegister, ShiftAction, VectorPlan};
use crate::simd::shifts::staged_lane;
use crate::simd::shuffles::total;

verus! {

// ---- bytes and lanes ----
/// Byte `k` of a number, in two's complement.
pub open spec fn digit(value: int, k: int) -> int {
    (value / pow2((8 * k) as nat) as int) % 256
}

/// The bytes of a register, from the lowest.
pub open spec fn bytes_of(value: u128) -> Seq<int> {
    Seq::new(16, |k: int| digit(value as int, k))
}

/// The number that bytes make up.
pub open spec fn number_of(bytes: Seq<int>) -> int
    decreases bytes.len(),
{
    if bytes.len() == 0 {
        0
    } else {
        number_of(bytes.drop_last()) + bytes.last() * pow2((8 * (bytes.len() - 1)) as nat)
    }
}

/// Lane `k` of a vector, of this many bytes.
pub open spec fn lane(vector: Seq<int>, width: int, k: int) -> int {
    number_of(vector.subrange(k * width, (k + 1) * width))
}

pub open spec fn as_signed(value: int, width: int) -> int {
    if 2 * value >= pow2((8 * width) as nat) {
        value - pow2((8 * width) as nat)
    } else {
        value
    }
}

/// A vector of lanes, each cut to its width, with zeros above them.
pub open spec fn from_lanes(width: int, count: int, value: spec_fn(int) -> int) -> Seq<int> {
    Seq::new(
        16,
        |j: int|
            if j < width * count {
                digit(value(j / width) % pow2((8 * width) as nat) as int, j % width)
            } else {
                0
            },
    )
}

/// A vector of bytes, with zeros above them.
pub open spec fn from_bytes(count: int, value: spec_fn(int) -> int) -> Seq<int> {
    Seq::new(
        16,
        |j: int|
            if j < count {
                value(j)
            } else {
                0
            },
    )
}

// ---- operations on lanes ----
pub open spec fn compares(comparison: IntegerComparison, a: int, b: int, width: int) -> bool {
    let (s, t) = (as_signed(a, width), as_signed(b, width));
    match comparison {
        IntegerComparison::SignedGreaterThan => s > t,
        IntegerComparison::UnsignedGreaterThan => a > b,
        IntegerComparison::SignedGreaterThanOrEqual => s >= t,
        IntegerComparison::UnsignedGreaterThanOrEqual => a >= b,
        IntegerComparison::SignedLessThan => s < t,
        IntegerComparison::SignedLessThanOrEqual => s <= t,
        IntegerComparison::Equal => a == b,
        IntegerComparison::NonzeroBitTest => (a as u64) & (b as u64) != 0,
    }
}

/// All ones, or nothing.
pub open spec fn told(condition: bool) -> int {
    if condition {
        -1
    } else {
        0
    }
}

pub open spec fn picks(choice: PairwiseOperation, a: int, b: int, width: int) -> int {
    let (s, t) = (as_signed(a, width), as_signed(b, width));
    match choice {
        PairwiseOperation::Add => a + b,
        PairwiseOperation::SignedMaximum => if s > t {
            a
        } else {
            b
        },
        PairwiseOperation::SignedMinimum => if s < t {
            a
        } else {
            b
        },
        PairwiseOperation::UnsignedMaximum => if a > b {
            a
        } else {
            b
        },
        PairwiseOperation::UnsignedMinimum => if a < b {
            a
        } else {
            b
        },
    }
}

/// A byte of the result of a bitwise operation. The last three keep bits of the old
/// destination: under the mask in it, or where the second operand is set, or is not.
pub open spec fn bitwise(function: BitwiseOperation, a: int, b: int, old: int) -> int {
    let (p, q, d) = (a as u8, b as u8, old as u8);
    (match function {
        BitwiseOperation::And => p & q,
        BitwiseOperation::BitClear => p & !q,
        BitwiseOperation::Or => p | q,
        BitwiseOperation::OrNot => p | !q,
        BitwiseOperation::ExclusiveOr => p ^ q,
        BitwiseOperation::Select => (p & d) | (q & !d),
        BitwiseOperation::InsertIfTrue => (p & q) | (d & !q),
        BitwiseOperation::InsertIfFalse => (p & !q) | (d & q),
    }) as int
}

/// How many bits of a byte are set.
pub open spec fn population(value: int) -> int {
    value % 2 + value / 2 % 2 + value / 4 % 2 + value / 8 % 2 + value / 16 % 2 + value / 32 % 2
        + value / 64 % 2 + value / 128 % 2
}

/// A lane moved left by a distance, or right where it is negative.
pub open spec fn moved(value: int, distance: int) -> int {
    if distance >= 0 {
        value * pow2(distance as nat)
    } else {
        value / pow2((-distance) as nat) as int
    }
}

// ---- what instructions compute ----
/// The bytes of one element.
pub open spec fn element(power: u8) -> int {
    if power == 0 {
        1
    } else if power == 1 {
        2
    } else if power == 2 {
        4
    } else {
        8
    }
}

/// The bytes that the instruction works on.
pub open spec fn extent(fields: FpSimdOperands) -> int {
    if fields.vector_128 {
        16
    } else {
        8
    }
}

/// The bytes of the elements that a shift immediate is for: those of its highest bit.
pub open spec fn shifted_element(immediate: u8) -> int {
    if immediate >= 64 {
        8
    } else if immediate >= 32 {
        4
    } else if immediate >= 16 {
        2
    } else {
        1
    }
}

/// Lane `k` of the two operands one after the other.
pub open spec fn of_both(first: Seq<int>, second: Seq<int>, width: int, count: int, k: int) -> int {
    if k < count {
        lane(first, width, k)
    } else {
        lane(second, width, k - count)
    }
}

/// Byte `j` of a permutation: every other lane of both operands, pairs of lanes of equal
/// place, or the lanes of the lower or upper halves in turn.
pub open spec fn permutes(
    operation: PermuteOperation,
    first: Seq<int>,
    second: Seq<int>,
    width: int,
    count: int,
    j: int,
) -> int {
    let k = j / width;
    let byte = j % width;
    let in_turn = if k % 2 == 0 {
        first
    } else {
        second
    };
    match operation {
        PermuteOperation::UnzipPrimary => if 2 * k < count {
            first[2 * k * width + byte]
        } else {
            second[(2 * k - count) * width + byte]
        },
        PermuteOperation::UnzipSecondary => if 2 * k + 1 < count {
            first[(2 * k + 1) * width + byte]
        } else {
            second[(2 * k + 1 - count) * width + byte]
        },
        PermuteOperation::TransposePrimary => in_turn[k / 2 * 2 * width + byte],
        PermuteOperation::TransposeSecondary => in_turn[(k / 2 * 2 + 1) * width + byte],
        PermuteOperation::ZipPrimary => in_turn[k / 2 * width + byte],
        PermuteOperation::ZipSecondary => in_turn[(count / 2 + k / 2) * width + byte],
    }
}

/// Byte `j` of a narrowed vector: of each wide lane of the source, shifted right, the low
/// half. It goes to the lower half of the register, below zeros, or to the upper, above
/// what the lower half held.
pub open spec fn narrowed(
    first: Seq<int>,
    previous: Seq<int>,
    width: int,
    shift: int,
    upper: bool,
    j: int,
) -> int {
    let at = |byte: int|
        digit(lane(first, 2 * width, byte / width) / pow2(shift as nat) as int, byte % width);
    if upper {
        if j < 8 {
            previous[j]
        } else {
            at(j - 8)
        }
    } else if j < 8 {
        at(j)
    } else {
        0
    }
}

/// The bytes of the destination of an instruction on integer lanes, from those of its
/// sources and of the destination before it.
pub open spec fn lane_result(
    i: FpSimdInstruction,
    first: Seq<int>,
    second: Seq<int>,
    previous: Seq<int>,
) -> Seq<int> {
    let fields = i.operands;
    let width = element(fields.opc);
    let count = extent(fields) / width;
    let esize = shifted_element(fields.shift_immediate);
    let eight = 8 * esize;
    match i.kind {
        FpSimdKind::Integer => from_lanes(
            width,
            count,
            |k: int|
                if fields.subtract {
                    lane(first, width, k) - lane(second, width, k)
                } else {
                    lane(first, width, k) + lane(second, width, k)
                },
        ),
        FpSimdKind::Bitwise => from_bytes(
            extent(fields),
            |j: int| bitwise(fields.bitwise_operation->0, first[j], second[j], previous[j]),
        ),
        FpSimdKind::IntegerCompare => from_lanes(
            width,
            count,
            |k: int|
                told(
                    compares(
                        fields.integer_comparison->0,
                        lane(first, width, k),
                        if fields.compare_with_zero {
                            0
                        } else {
                            lane(second, width, k)
                        },
                        width,
                    ),
                ),
        ),
        FpSimdKind::IntegerMinMax => from_lanes(
            width,
            count,
            |k: int|
                picks(
                    fields.pairwise_operation->0,
                    lane(first, width, k),
                    lane(second, width, k),
                    width,
                ),
        ),
        FpSimdKind::IntegerPairwise => from_lanes(
            width,
            count,
            |k: int|
                picks(
                    fields.pairwise_operation->0,
                    of_both(first, second, width, count, 2 * k),
                    of_both(first, second, width, count, 2 * k + 1),
                    width,
                ),
        ),
        FpSimdKind::PermuteTwoSource => from_bytes(
            extent(fields),
            |j: int| permutes(fields.permute_operation->0, first, second, width, count, j),
        ),
        FpSimdKind::Extract => from_bytes(
            extent(fields),
            |j: int|
                if fields.immediate_4 + j < extent(fields) {
                    first[fields.immediate_4 + j]
                } else {
                    second[fields.immediate_4 + j - extent(fields)]
                },
        ),
        FpSimdKind::ShiftRightNarrow => Seq::new(
            16,
            |j: int|
                narrowed(
                    first,
                    previous,
                    esize,
                    2 * eight - fields.shift_immediate,
                    fields.vector_128,
                    j,
                ),
        ),
        FpSimdKind::ExtractNarrow => Seq::new(
            16,
            |j: int| narrowed(first, previous, width, 0, fields.vector_128, j),
        ),
        FpSimdKind::ScalarShiftRightImmediate | FpSimdKind::VectorShiftRightImmediate => from_lanes(
            esize,
            (if i.kind is VectorShiftRightImmediate {
                extent(fields)
            } else {
                8
            }) / esize,
            |k: int|
                moved(
                    if fields.operation_bit {
                        lane(first, esize, k)
                    } else {
                        as_signed(lane(first, esize, k), esize)
                    },
                    fields.shift_immediate - 2 * eight,
                ),
        ),
        FpSimdKind::ScalarShiftLeftImmediate | FpSimdKind::VectorShiftLeftImmediate => from_lanes(
            esize,
            (if i.kind is VectorShiftLeftImmediate {
                extent(fields)
            } else {
                8
            }) / esize,
            |k: int| moved(lane(first, esize, k), fields.shift_immediate - eight),
        ),
        FpSimdKind::ShiftLeftLong => from_lanes(
            2 * esize,
            8int / esize,
            |k: int|
                {
                    let value = lane(
                        first,
                        esize,
                        if fields.vector_128 {
                            8int / esize + k
                        } else {
                            k
                        },
                    );
                    moved(
                        if fields.operation_bit {
                            value
                        } else {
                            as_signed(value, esize)
                        },
                        fields.shift_immediate - eight,
                    )
                },
        ),
        FpSimdKind::VectorSignedShiftRegister | FpSimdKind::VectorUnsignedShiftRegister =>
            from_lanes(
            width,
            count,
            |k: int|
                moved(
                    if i.kind is VectorSignedShiftRegister {
                        as_signed(lane(first, width, k), width)
                    } else {
                        lane(first, width, k)
                    },
                    as_signed(second[k * width], 1),
                ),
        ),
        FpSimdKind::CountBits => from_bytes(extent(fields), |j: int| population(first[j])),
        FpSimdKind::AddAcrossVector => from_lanes(
            width,
            1,
            |k: int| total(all_lanes(first, width, count)),
        ),
        _ => Seq::empty(),
    }
}

pub open spec fn all_lanes(vector: Seq<int>, width: int, count: int) -> Seq<int> {
    Seq::new(count as nat, |k: int| lane(vector, width, k))
}

/// The bytes of the lane that a selector names: its lowest set bit gives the width, and
/// the bits above that one the place.
pub open spec fn selected_element(selector: u8) -> int {
    if selector % 2 == 1 {
        1
    } else if selector / 2 % 2 == 1 {
        2
    } else if selector / 4 % 2 == 1 {
        4
    } else {
        8
    }
}

pub open spec fn selected_place(selector: u8) -> int {
    selector as int / (2 * selected_element(selector))
}

/// The vector with some of its bytes replaced.
pub open spec fn replaced(vector: Seq<int>, from: int, count: int, value: spec_fn(int) -> int) -> Seq<
    int,
> {
    Seq::new(
        16,
        |j: int|
            if from <= j < from + count {
                value(j - from)
            } else {
                vector[j]
            },
    )
}

/// The bytes of a scalar of this format.
pub open spec fn scalar_bytes(opc: u8) -> int {
    if opc == 0 {
        4
    } else if opc == 1 {
        8
    } else {
        2
    }
}

/// The bytes of the destination of a move, where `general` is the general register that
/// it takes. A selection takes the first source where its condition holds.
pub open spec fn move_result(
    i: FpSimdInstruction,
    general: u64,
    first: Seq<int>,
    second: Seq<int>,
    previous: Seq<int>,
    holds: bool,
) -> Seq<int> {
    let fields = i.operands;
    let width = selected_element(fields.immediate_5);
    let place = selected_place(fields.immediate_5);
    match i.kind {
        FpSimdKind::DuplicateGeneral => from_lanes(
            width,
            extent(fields) / width,
            |k: int| general as int,
        ),
        FpSimdKind::DuplicateElement => from_bytes(
            extent(fields),
            |j: int| first[place * width + j % width],
        ),
        FpSimdKind::InsertElement => replaced(
            previous,
            place * width,
            width,
            |b: int| first[fields.immediate_4 as int / width * width + b],
        ),
        FpSimdKind::InsertGeneral => replaced(
            previous,
            place * width,
            width,
            |b: int| digit(general as int, b),
        ),
        FpSimdKind::MoveFromGeneral => if fields.opc == 2 {
            replaced(previous, 8, 8, |b: int| digit(general as int, b))
        } else {
            from_bytes(
                if fields.opc == 0 {
                    4
                } else if fields.opc == 1 {
                    8
                } else {
                    2
                },
                |j: int| digit(general as int, j),
            )
        },
        FpSimdKind::ScalarMove => from_bytes(scalar_bytes(fields.opc), |j: int| first[j]),
        FpSimdKind::ScalarFloatConditionalSelect => from_bytes(
            if fields.opc == 0 {
                4
            } else {
                8
            },
            |j: int|
                if holds {
                    first[j]
                } else {
                    second[j]
                },
        ),
        _ => Seq::empty(),
    }
}

/// What a move puts into a general register: a lane, or a part of the source.
pub open spec fn general_result(i: FpSimdInstruction, first: Seq<int>) -> int {
    let fields = i.operands;
    match i.kind {
        FpSimdKind::UnsignedMoveToGeneral => lane(
            first,
            selected_element(fields.immediate_5),
            selected_place(fields.immediate_5),
        ),
        _ => if fields.opc == 0 {
            lane(first, 4, 0)
        } else if fields.opc == 1 {
            lane(first, 8, 0)
        } else if fields.opc == 2 {
            lane(first, 8, 1)
        } else {
            lane(first, 2, 0)
        },
    }
}

// ---- what plans compute ----
/// The bytes of the two operands that a mask names.
pub open spec fn shuffled(mask: Seq<u8>, first: Seq<int>, second: Seq<int>) -> Seq<int> {
    Seq::new(
        16,
        |j: int|
            if mask[j] < 16 {
                first[mask[j] as int]
            } else {
                second[mask[j] - 16]
            },
    )
}

/// The part of a vector that a plan fills.
pub open spec fn filled(full: bool) -> int {
    if full {
        16
    } else {
        8
    }
}

/// The vector with its upper half cleared, unless all of it is kept.
pub open spec fn cut(vector: Seq<int>, full: bool) -> Seq<int> {
    from_bytes(filled(full), |j: int| vector[j])
}

pub open spec fn lane_operates(operation: LaneOperation, a: int, b: int, width: int) -> int {
    match operation {
        LaneOperation::Add => a + b,
        LaneOperation::Subtract => a - b,
        LaneOperation::Compare(comparison) => told(compares(comparison, a, b, width)),
        LaneOperation::Choose(choice) => picks(choice, a, b, width),
    }
}

pub open spec fn acts(action: ShiftAction, value: int, width: int) -> int {
    match action {
        ShiftAction::Left { distance } => value * pow2(distance as nat),
        ShiftAction::Logical { distance } => value / pow2(distance as nat) as int,
        ShiftAction::Arithmetic { distance } => as_signed(value, width) / pow2(
            distance as nat,
        ) as int,
        ShiftAction::Zero => 0,
    }
}

/// The vector after some folds: each adds to every lane the one that a mask brings over it.
pub open spec fn across(vector: Seq<int>, masks: Seq<Vec<u8>>, width: int, folds: nat) -> Seq<int>
    decreases folds,
{
    if folds == 0 {
        vector
    } else {
        let before = across(vector, masks, width, (folds - 1) as nat);
        from_lanes(
            width,
            16int / width,
            |k: int|
                lane(before, width, k) + lane(
                    shuffled(masks[folds - 1]@, before, before),
                    width,
                    k,
                ),
        )
    }
}

/// What a plan puts into the bytes of its destination.
pub open spec fn computed_bytes(
    native: VectorPlan,
    first: Seq<int>,
    second: Seq<int>,
    previous: Seq<int>,
) -> Seq<int> {
    match native {
        VectorPlan::Lanes { operation, bits, with_zero, full } => {
            let width = bits as int / 8;
            from_lanes(
                width,
                filled(full) / width,
                |k: int|
                    lane_operates(
                        operation,
                        lane(first, width, k),
                        if with_zero {
                            0
                        } else {
                            lane(second, width, k)
                        },
                        width,
                    ),
            )
        },
        VectorPlan::Bitwise { function, full } => from_bytes(
            filled(full),
            |j: int| bitwise(function, first[j], second[j], previous[j]),
        ),
        VectorPlan::Pairwise { choice, bits, left, right, full } => {
            let width = bits as int / 8;
            let (l, r) = (shuffled(left@, first, second), shuffled(right@, first, second));
            from_lanes(
                width,
                filled(full) / width,
                |k: int| picks(choice, lane(l, width, k), lane(r, width, k), width),
            )
        },
        VectorPlan::Shuffle { mask, full } => cut(shuffled(mask@, first, second), full),
        VectorPlan::Narrow { bits, shift, packed, above } => {
            let wide = bits as int / 8;
            let shifted = from_lanes(
                wide,
                16int / wide,
                |k: int| lane(first, wide, k) / pow2(shift as nat) as int,
            );
            let low = cut(shuffled(packed@, shifted, shifted), false);
            match above {
                Some(mask) => shuffled(mask@, previous, low),
                None => low,
            }
        },
        VectorPlan::Shift { bits, action, full } => {
            let width = bits as int / 8;
            from_lanes(
                width,
                filled(full) / width,
                |k: int| acts(action, lane(first, width, k), width),
            )
        },
        VectorPlan::Lengthen { bits, shift, unsigned, first: from, count } => {
            let width = bits as int / 8;
            from_lanes(
                2 * width,
                count as int,
                |k: int|
                    {
                        let value = lane(first, width, from + k);
                        (if unsigned {
                            value
                        } else {
                            as_signed(value, width)
                        }) * pow2(shift as nat)
                    },
            )
        },
        VectorPlan::ShiftByRegister { bits, stages, signed, full } => {
            let width = bits as int / 8;
            from_lanes(
                width,
                filled(full) / width,
                |k: int|
                    staged_lane(
                        lane(first, width, k),
                        as_signed(second[k * width], 1),
                        bits,
                        signed,
                    ),
            )
        },
        VectorPlan::CountBits { full } => from_bytes(filled(full), |j: int| population(first[j])),
        VectorPlan::AddAcross { bits, masks } => {
            let width = bits as int / 8;
            let folded = across(first, masks@, width, masks@.len());
            from_lanes(width, 1, |k: int| lane(folded, width, 0))
        },
        _ => Seq::empty(),
    }
}

/// The bytes of a part of a vector, and where it starts.
pub open spec fn part_bytes(part: GeneralPart) -> int {
    match part {
        GeneralPart::Low16 => 2,
        GeneralPart::Low32 => 4,
        GeneralPart::Low64 => 8,
        GeneralPart::High64 => 8,
    }
}

/// What a plan that moves puts into the bytes of its destination.
pub open spec fn moved_bytes(
    native: VectorPlan,
    general: u64,
    first: Seq<int>,
    second: Seq<int>,
    previous: Seq<int>,
    guest: Guest,
) -> Seq<int> {
    match native {
        VectorPlan::SplatGeneral { bits, full } => from_lanes(
            bits as int / 8,
            filled(full) / (bits as int / 8),
            |k: int| general as int,
        ),
        VectorPlan::SplatLane { lane, full } => {
            let width = lane.bits as int / 8;
            from_bytes(filled(full), |j: int| first[lane.index * width + j % width])
        },
        VectorPlan::InsertLane { lane, from } => {
            let width = lane.bits as int / 8;
            replaced(previous, lane.index * width, width, |b: int| first[from * width + b])
        },
        VectorPlan::InsertGeneral { lane } => {
            let width = lane.bits as int / 8;
            replaced(previous, lane.index * width, width, |b: int| digit(general as int, b))
        },
        VectorPlan::FromGeneral { part } => if part is High64 {
            replaced(previous, 8, 8, |b: int| digit(general as int, b))
        } else {
            from_bytes(part_bytes(part), |j: int| digit(general as int, j))
        },
        VectorPlan::KeepLow { width } => from_bytes(width as int / 8, |j: int| first[j]),
        VectorPlan::Select { condition, width } => from_bytes(
            width as int / 8,
            |j: int|
                if condition_holds(condition, n(guest), z(guest), c(guest), v(guest)) {
                    first[j]
                } else {
                    second[j]
                },
        ),
        _ => Seq::empty(),
    }
}

/// What a plan puts into a general register.
pub open spec fn moved_number(native: VectorPlan, first: Seq<int>) -> int {
    match native {
        VectorPlan::LaneToGeneral { lane: from, .. } => lane(
            first,
            from.bits as int / 8,
            from.index as int,
        ),
        VectorPlan::ToGeneral { part } => lane(
            first,
            part_bytes(part),
            if part is High64 {
                1
            } else {
                0
            },
        ),
        _ => 0,
    }
}

/// The bytes of a vector register that a plan names.
pub open spec fn register_bytes(register: Option<PlanRegister>, guest: Guest) -> Seq<int> {
    match register {
        Some(PlanRegister::Vector(index)) => bytes_of(guest(StateItem::Vector(index))),
        _ => bytes_of(0),
    }
}

/// The value of a general register that a plan names.
pub open spec fn register_value(register: Option<PlanRegister>, guest: Guest) -> u64 {
    match register {
        Some(PlanRegister::General(index)) => x(guest, index),
        _ => 0,
    }
}

} // verus!
