//! Plans on integer lanes compute what their instructions do.

use vstd::prelude::*;
use vstd::arithmetic::div_mod::{
    lemma_add_mod_noop, lemma_fundamental_div_mod, lemma_fundamental_div_mod_converse,
    lemma_mod_bound, lemma_mod_breakdown, lemma_mod_multiples_vanish, lemma_mod_twice,
    lemma_small_mod,
};
use vstd::arithmetic::power2::{
    lemma2_to64, lemma_pow2_adds, lemma_pow2_pos, lemma_pow2_unfold, pow2,
};
use super::guest::Guest;
use super::vectors::{
    acts, across, all_lanes, as_signed, bytes_of, computed_bytes, cut, digit, element, extent, filled, from_lanes, lane,
    lane_result, moved, number_of, of_both, permutes, picks, register_bytes, shifted_element,
    shuffled,
};
use crate::abi::HostAbi;
use crate::analysis::StateItem;
use crate::decode::{FpSimdInstruction, FpSimdKind, FpSimdOperands};
use crate::simd::emit::plan_fits;
use crate::simd::lanes::lane_width;
use crate::simd::plan::{vector_bits, FpSimdPlan, PlanRegister, VectorPlan};
use crate::simd::shifts::{lane_number, law_stages_shift_lanes, staged_lane};
use crate::simd::shuffles::{
    comes_from, distance_of, fold, folded, halvings, law_fold_keeps_the_sum, moves_lanes, permuted,
    total, unzipped, window, LaneOf,
};
use crate::simd::vector::{is_lane_computation, lane_computation_fits, narrow_width};

verus! {

/// The instruction and its plan take the same bytes to the same bytes.
spec fn same(
    i: FpSimdInstruction,
    native: VectorPlan,
    first: Seq<int>,
    second: Seq<int>,
    previous: Seq<int>,
) -> bool {
    computed_bytes(native, first, second, previous) == lane_result(i, first, second, previous)
}

proof fn lemma_same_lanes(
    width: int,
    count: int,
    one: spec_fn(int) -> int,
    other: spec_fn(int) -> int,
)
    requires
        width == 1 || width == 2 || width == 4 || width == 8 || width == 16,
        forall|k: int| 0 <= k < count ==> #[trigger] one(k) == other(k),
    ensures
        from_lanes(width, count, one) == from_lanes(width, count, other),
{
    assert forall|j: int| 0 <= j < 16 && j < width * count implies 0 <= #[trigger] (j / width)
        < count by {
        if width == 1 {
        } else if width == 2 {
        } else if width == 4 {
        } else if width == 8 {
        } else {
        }
    }
    assert(from_lanes(width, count, one) =~= from_lanes(width, count, other));
}

/// A part of a vector in lanes.
proof fn lemma_parts(whole: int, width: int)
    requires
        whole == 8 || whole == 16,
        width == 1 || width == 2 || width == 4 || width == 8,
    ensures
        (whole / width) * width == whole,
        whole / width == if width == 1 {
            whole
        } else if width == 2 {
            if whole == 8 {
                4int
            } else {
                8
            }
        } else if width == 4 {
            if whole == 8 {
                2int
            } else {
                4
            }
        } else {
            if whole == 8 {
                1int
            } else {
                2
            }
        },
{
    assert((whole == 8 || whole == 16) && width == 1 ==> whole / width == whole)
        by (nonlinear_arith);
    assert(whole == 8 && width == 2 ==> whole / width == 4) by (nonlinear_arith);
    assert(whole == 16 && width == 2 ==> whole / width == 8) by (nonlinear_arith);
    assert(whole == 8 && width == 4 ==> whole / width == 2) by (nonlinear_arith);
    assert(whole == 16 && width == 4 ==> whole / width == 4) by (nonlinear_arith);
    assert(whole == 8 && width == 8 ==> whole / width == 1) by (nonlinear_arith);
    assert(whole == 16 && width == 8 ==> whole / width == 2) by (nonlinear_arith);
}

/// The lane that a byte lies in.
proof fn lemma_place(j: int, width: int, count: int)
    requires
        width == 1 || width == 2 || width == 4 || width == 8,
        0 <= j < count * width,
    ensures
        0 <= j / width < count,
        0 <= j % width < width,
        j == (j / width) * width + j % width,
{
    lemma_fundamental_div_mod(j, width);
    let k = j / width;
    assert(0 <= k) by (nonlinear_arith)
        requires
            0 <= j,
            width >= 1,
            k == j / width,
    ;
    assert(k < count) by (nonlinear_arith)
        requires
            j < count * width,
            j == width * k + j % width,
            0 <= j % width,
            width >= 1,
    ;
    assert(width * k == k * width) by (nonlinear_arith);
}

spec fn is_vector(bytes: Seq<int>) -> bool {
    bytes.len() == 16 && forall|k: int| 0 <= k < 16 ==> 0 <= #[trigger] bytes[k] < 256
}

proof fn lemma_number_bound(bytes: Seq<int>)
    requires
        forall|k: int| 0 <= k < bytes.len() ==> 0 <= #[trigger] bytes[k] < 256,
    ensures
        0 <= number_of(bytes) < pow2(8 * bytes.len()),
    decreases bytes.len(),
{
    if bytes.len() == 0 {
        lemma2_to64();
    } else {
        lemma_number_bound(bytes.drop_last());
        let n = (8 * (bytes.len() - 1)) as nat;
        lemma_pow2_adds(n, 8);
        lemma2_to64();
        let power = pow2(n) as int;
        let last = bytes.last();
        assert(0 <= last * power && last * power + power <= 256 * power) by (nonlinear_arith)
            requires
                0 <= last < 256,
                power >= 0,
        ;
    }
}

proof fn lemma_lane_bound(vector: Seq<int>, width: int, k: int)
    requires
        is_vector(vector),
        width == 1 || width == 2 || width == 4 || width == 8,
        0 <= k,
        (k + 1) * width <= 16,
    ensures
        0 <= lane(vector, width, k) < pow2((8 * width) as nat),
{
    assert(0 <= k * width && (k + 1) * width == k * width + width) by (nonlinear_arith)
        requires
            0 <= k,
            width >= 1,
    ;
    let part = vector.subrange(k * width, (k + 1) * width);
    assert forall|j: int| 0 <= j < part.len() implies 0 <= #[trigger] part[j] < 256 by {
        assert(part[j] == vector[k * width + j]);
    }
    lemma_number_bound(part);
}

proof fn lemma_elementwise(
    i: FpSimdInstruction,
    native: VectorPlan,
    first: Seq<int>,
    second: Seq<int>,
    previous: Seq<int>,
)
    requires
        i.kind is Integer || i.kind is IntegerCompare || i.kind is IntegerMinMax || i.kind is Bitwise
            || i.kind is CountBits,
        lane_computation_fits(i, native),
    ensures
        same(i, native, first, second, previous),
{
    assert(computed_bytes(native, first, second, previous) =~= lane_result(
        i,
        first,
        second,
        previous,
    ));
}

/// Byte `j` of a shuffle, by the lane that it comes from.
proof fn lemma_shuffled_byte(
    mask: Seq<u8>,
    lanes: int,
    width: int,
    from: spec_fn(int) -> LaneOf,
    first: Seq<int>,
    second: Seq<int>,
    j: int,
)
    requires
        moves_lanes(mask, lanes, width, from),
        width == 1 || width == 2 || width == 4 || width == 8,
        0 <= j < 16,
        j < lanes * width,
        0 <= from(j / width).lane,
        (from(j / width).lane + 1) * width <= 16,
    ensures
        shuffled(mask, first, second)[j] == (if from(j / width).second {
            second
        } else {
            first
        })[from(j / width).lane * width + j % width],
{
    let k = j / width;
    let byte = j % width;
    assert(0 <= k < lanes && 0 <= byte < width && j == k * width + byte) by {
        if width == 1 {
        } else if width == 2 {
        } else if width == 4 {
        } else {
        }
    }
    assert(comes_from(mask, k, width, byte, from(k)));
    let base = from(k).lane * width;
    assert((from(k).lane + 1) * width == base + width) by (nonlinear_arith)
        requires
            base == from(k).lane * width,
    ;
    assert(0 <= base) by (nonlinear_arith)
        requires
            base == from(k).lane * width,
            0 <= from(k).lane,
            width >= 1,
    ;
}

proof fn lemma_shuffled_lane(
    mask: Seq<u8>,
    lanes: int,
    width: int,
    from: spec_fn(int) -> LaneOf,
    first: Seq<int>,
    second: Seq<int>,
    k: int,
)
    requires
        moves_lanes(mask, lanes, width, from),
        width == 1 || width == 2 || width == 4 || width == 8,
        0 <= k < lanes,
        lanes * width <= 16,
        first.len() == 16,
        second.len() == 16,
        0 <= from(k).lane,
        (from(k).lane + 1) * width <= 16,
    ensures
        lane(shuffled(mask, first, second), width, k) == lane(
            if from(k).second {
                second
            } else {
                first
            },
            width,
            from(k).lane,
        ),
{
    let source = if from(k).second {
        second
    } else {
        first
    };
    let at = from(k).lane;
    let result = shuffled(mask, first, second);
    assert(0 <= k * width && (k + 1) * width == k * width + width && (k + 1) * width <= 16)
        by (nonlinear_arith)
        requires
            0 <= k < lanes,
            width >= 1,
            lanes * width <= 16,
    ;
    assert(0 <= at * width && (at + 1) * width == at * width + width) by (nonlinear_arith)
        requires
            0 <= at,
            width >= 1,
    ;
    let part = result.subrange(k * width, (k + 1) * width);
    let wanted = source.subrange(at * width, (at + 1) * width);
    assert forall|b: int| 0 <= b < width implies #[trigger] part[b] == wanted[b] by {
        let j = k * width + b;
        assert(j / width == k && j % width == b) by {
            lemma_fundamental_div_mod_converse(j, width, k, b);
        }
        assert(j < lanes * width);
        lemma_shuffled_byte(mask, lanes, width, from, first, second, j);
    }
    assert(part =~= wanted);
}

proof fn lemma_pairwise(
    i: FpSimdInstruction,
    native: VectorPlan,
    first: Seq<int>,
    second: Seq<int>,
    previous: Seq<int>,
)
    requires
        i.kind is IntegerPairwise,
        i.operands.opc < 3 || i.operands.vector_128,
        lane_computation_fits(i, native),
        first.len() == 16,
        second.len() == 16,
    ensures
        same(i, native, first, second, previous),
{
    if let VectorPlan::Pairwise { choice, bits, left, right, full } = native {
        let width = element(i.operands.opc);
        let count = extent(i.operands) / width;
        assert(width == bits as int / 8);
        assert(count == filled(full) / width);
        let (l, r) = (shuffled(left@, first, second), shuffled(right@, first, second));
        let even = |k: int| unzipped(count / 2, k, 0);
        let odd = |k: int| unzipped(count / 2, k, 1);
        assert(count * width <= 16 && count % 2 == 0);
        assert forall|k: int| 0 <= k < count implies #[trigger] lane(l, width, k) == of_both(
            first,
            second,
            width,
            count,
            2 * k,
        ) && lane(r, width, k) == of_both(first, second, width, count, 2 * k + 1) by {
            assert((even(k).lane + 1) * width <= 16 && (odd(k).lane + 1) * width <= 16)
                by (nonlinear_arith)
                requires
                    even(k).lane + 1 <= count,
                    odd(k).lane + 1 <= count,
                    count * width <= 16,
                    width >= 1,
            ;
            lemma_shuffled_lane(left@, count, width, even, first, second, k);
            lemma_shuffled_lane(right@, count, width, odd, first, second, k);
        }
        lemma_same_lanes(
            width,
            count,
            |k: int| picks(choice, lane(l, width, k), lane(r, width, k), width),
            |k: int|
                picks(
                    i.operands.pairwise_operation->0,
                    of_both(first, second, width, count, 2 * k),
                    of_both(first, second, width, count, 2 * k + 1),
                    width,
                ),
        );
    }
}

proof fn lemma_bit_parts(fields: FpSimdOperands)
    ensures
        lane_width(fields.opc as int) == 8 * element(fields.opc),
        vector_bits(fields) / lane_width(fields.opc as int) == extent(fields) / element(
            fields.opc,
        ),
{
    let width = element(fields.opc);
    let whole = extent(fields);
    lemma_parts(whole, width);
    assert((8 * whole) / (8 * width) == whole / width) by (nonlinear_arith)
        requires
            whole == (whole / width) * width,
            width >= 1,
    ;
}

proof fn lemma_permutation(
    i: FpSimdInstruction,
    native: VectorPlan,
    first: Seq<int>,
    second: Seq<int>,
    previous: Seq<int>,
)
    requires
        i.kind is PermuteTwoSource,
        i.operands.opc < 3 || i.operands.vector_128,
        lane_computation_fits(i, native),
    ensures
        same(i, native, first, second, previous),
{
    if let VectorPlan::Shuffle { mask, full } = native {
        let fields = i.operands;
        let width = element(fields.opc);
        let count = extent(fields) / width;
        let operation = fields.permute_operation->0;
        let from = |k: int| permuted(operation, count, k);
        assert(count * width == extent(fields) && count % 2 == 0 && count == vector_bits(fields)
            / lane_width(fields.opc as int) && width == lane_width(fields.opc as int) / 8) by {
            lemma_parts(extent(fields), width);
            lemma_bit_parts(fields);
        }
        assert forall|j: int| 0 <= j < extent(fields) implies #[trigger] shuffled(
            mask@,
            first,
            second,
        )[j] == permutes(operation, first, second, width, count, j) by {
            let k = j / width;
            lemma_place(j, width, count);
            assert(0 <= from(k).lane < count);
            assert((from(k).lane + 1) * width <= 16) by (nonlinear_arith)
                requires
                    from(k).lane + 1 <= count,
                    count * width <= 16,
                    width >= 1,
            ;
            lemma_shuffled_byte(mask@, count, width, from, first, second, j);
        }
        assert(computed_bytes(native, first, second, previous) =~= lane_result(
            i,
            first,
            second,
            previous,
        ));
    }
}

proof fn lemma_window(
    i: FpSimdInstruction,
    native: VectorPlan,
    first: Seq<int>,
    second: Seq<int>,
    previous: Seq<int>,
)
    requires
        i.kind is Extract,
        i.operands.immediate_4 < 16,
        i.operands.immediate_4 < 8 || i.operands.vector_128,
        lane_computation_fits(i, native),
    ensures
        same(i, native, first, second, previous),
{
    if let VectorPlan::Shuffle { mask, full } = native {
        let fields = i.operands;
        let count = extent(fields);
        let from = |k: int| window(count, fields.immediate_4 as int, k);
        assert forall|j: int| 0 <= j < count implies #[trigger] shuffled(mask@, first, second)[j]
            == if fields.immediate_4 + j < count {
            first[fields.immediate_4 + j]
        } else {
            second[fields.immediate_4 + j - count]
        } by {
            lemma_shuffled_byte(mask@, count, 1, from, first, second, j);
        }
        assert(computed_bytes(native, first, second, previous) =~= lane_result(
            i,
            first,
            second,
            previous,
        ));
    }
}

proof fn lemma_narrow(
    i: FpSimdInstruction,
    native: VectorPlan,
    first: Seq<int>,
    second: Seq<int>,
    previous: Seq<int>,
)
    requires
        i.kind is ShiftRightNarrow || i.kind is ExtractNarrow,
        i.kind is ShiftRightNarrow ==> 8 <= i.operands.shift_immediate < 64,
        i.kind is ExtractNarrow ==> i.operands.opc < 3,
        lane_computation_fits(i, native),
        is_vector(first),
        previous.len() == 16,
    ensures
        same(i, native, first, second, previous),
{
    if let VectorPlan::Narrow { bits, shift, packed, above } = native {
        let fields = i.operands;
        let width = narrow_width(i) / 8;
        let wide = 2 * width;
        assert(wide == bits as int / 8);
        assert(width == 1 || width == 2 || width == 4);
        let value = |k: int| lane(first, wide, k) / pow2(shift as nat) as int;
        let shifted = from_lanes(wide, 16int / wide, value);
        let from = |k: int| LaneOf { second: false, lane: 2 * k };
        let low = cut(shuffled(packed@, shifted, shifted), false);
        assert forall|j: int| 0 <= j < 8 implies #[trigger] low[j] == digit(
            value(j / width),
            j % width,
        ) by {
            let k = j / width;
            let byte = j % width;
            let count = 8int / width;
            lemma_parts(8, width);
            lemma_place(j, width, count);
            assert(64int / narrow_width(i) == count) by {
                assert(narrow_width(i) == 8 ==> 64int / narrow_width(i) == 8) by (nonlinear_arith);
                assert(narrow_width(i) == 16 ==> 64int / narrow_width(i) == 4)
                    by (nonlinear_arith);
                assert(narrow_width(i) == 32 ==> 64int / narrow_width(i) == 2)
                    by (nonlinear_arith);
            }
            assert((2 * k + 1) * width <= 16 && (k + 1) * wide <= 16 && (2 * k) * width == k * wide)
                by (nonlinear_arith)
                requires
                    0 <= k < count,
                    count * width == 8,
                    wide == 2 * width,
                    width >= 1,
            ;
            lemma_shuffled_byte(packed@, count, width, from, shifted, shifted, j);
            lemma_fundamental_div_mod_converse(k * wide + byte, wide, k, byte);
            lemma_parts(16, wide);
            assert(k * wide + byte < wide * (16int / wide)) by (nonlinear_arith)
                requires
                    (16int / wide) * wide == 16,
                    (k + 1) * wide <= 16,
                    byte < wide,
            ;
            lemma_lane_bound(first, wide, k);
            lemma_pow2_pos(shift as nat);
            let whole = lane(first, wide, k);
            let power = pow2(shift as nat) as int;
            assert(0 <= whole / power <= whole) by (nonlinear_arith)
                requires
                    0 <= whole,
                    power >= 1,
            ;
            lemma_small_mod((whole / power) as nat, pow2((8 * wide) as nat));
        }
        if let Some(mask) = above {
            let halves = |k: int| LaneOf { second: k == 1, lane: 0 };
            assert forall|j: int| 0 <= j < 16 implies #[trigger] shuffled(mask@, previous, low)[j]
                == if j < 8 {
                previous[j]
            } else {
                low[j - 8]
            } by {
                lemma_shuffled_byte(mask@, 2, 8, halves, previous, low, j);
            }
        }
        assert(computed_bytes(native, first, second, previous) =~= lane_result(
            i,
            first,
            second,
            previous,
        ));
    }
}

proof fn lemma_congruent_lanes(
    width: int,
    count: int,
    one: spec_fn(int) -> int,
    other: spec_fn(int) -> int,
)
    requires
        width == 1 || width == 2 || width == 4 || width == 8,
        forall|k: int|
            0 <= k < count ==> (#[trigger] one(k)) % pow2((8 * width) as nat) as int == other(k)
                % pow2((8 * width) as nat) as int,
    ensures
        from_lanes(width, count, one) == from_lanes(width, count, other),
{
    assert forall|j: int| 0 <= j < 16 && j < width * count implies (one(#[trigger] (j / width))
        % pow2((8 * width) as nat) as int) == other(j / width) % pow2((8 * width) as nat) as int by {
        assert(width * count == count * width) by (nonlinear_arith);
        lemma_place(j, width, count);
    }
    assert(from_lanes(width, count, one) =~= from_lanes(width, count, other));
}

/// A shift of a number by its whole width leaves what a shift by one less does.
proof fn lemma_all_shifted_out(value: int, bits: nat)
    requires
        bits >= 1,
        -pow2((bits - 1) as nat) <= value < pow2((bits - 1) as nat),
    ensures
        value / pow2(bits) as int == value / pow2((bits - 1) as nat) as int,
{
    let half = pow2((bits - 1) as nat) as int;
    lemma_pow2_unfold(bits);
    lemma_pow2_pos((bits - 1) as nat);
    let whole = pow2(bits) as int;
    if value < 0 {
        lemma_fundamental_div_mod_converse(value, whole, -1, value + whole);
        lemma_fundamental_div_mod_converse(value, half, -1, value + half);
    } else {
        lemma_fundamental_div_mod_converse(value, whole, 0, value);
        lemma_fundamental_div_mod_converse(value, half, 0, value);
    }
}

proof fn lemma_signed_bounds(value: int, width: int)
    requires
        width == 1 || width == 2 || width == 4 || width == 8,
        0 <= value < pow2((8 * width) as nat),
    ensures
        -pow2((8 * width - 1) as nat) <= as_signed(value, width) < pow2((8 * width - 1) as nat),
{
    lemma_pow2_unfold((8 * width) as nat);
}

proof fn lemma_shift(
    i: FpSimdInstruction,
    native: VectorPlan,
    first: Seq<int>,
    second: Seq<int>,
    previous: Seq<int>,
)
    requires
        i.kind is ScalarShiftRightImmediate || i.kind is VectorShiftRightImmediate
            || i.kind is ScalarShiftLeftImmediate || i.kind is VectorShiftLeftImmediate,
        8 <= i.operands.shift_immediate < 128,
        lane_computation_fits(i, native),
        is_vector(first),
    ensures
        same(i, native, first, second, previous),
{
    if let VectorPlan::Shift { bits, action, full } = native {
        let fields = i.operands;
        let width = shifted_element(fields.shift_immediate);
        let eight = 8 * width;
        assert(bits == eight);
        let whole = filled(full);
        let count = whole / width;
        lemma_parts(whole, width);
        let right = i.kind is ScalarShiftRightImmediate || i.kind is VectorShiftRightImmediate;
        let planned = |k: int| acts(action, lane(first, width, k), width);
        let meant = if right {
            |k: int|
                moved(
                    if fields.operation_bit {
                        lane(first, width, k)
                    } else {
                        as_signed(lane(first, width, k), width)
                    },
                    fields.shift_immediate - 2 * eight,
                )
        } else {
            |k: int| moved(lane(first, width, k), fields.shift_immediate - eight)
        };
        assert forall|k: int| 0 <= k < count implies #[trigger] planned(k) == meant(k) by {
            assert((k + 1) * width <= 16) by (nonlinear_arith)
                requires
                    k + 1 <= count,
                    count * width <= 16,
                    width >= 1,
            ;
            lemma_lane_bound(first, width, k);
            let value = lane(first, width, k);
            lemma_signed_bounds(value, width);
            if right {
                let distance = 2 * eight - fields.shift_immediate;
                if distance == eight {
                    lemma_all_shifted_out(as_signed(value, width), eight as nat);
                    lemma_fundamental_div_mod_converse(value, pow2(eight as nat) as int, 0, value);
                }
            }
        }
        lemma_same_lanes(width, count, planned, meant);
    }
}

proof fn lemma_lengthen(
    i: FpSimdInstruction,
    native: VectorPlan,
    first: Seq<int>,
    second: Seq<int>,
    previous: Seq<int>,
)
    requires
        i.kind is ShiftLeftLong,
        8 <= i.operands.shift_immediate < 64,
        lane_computation_fits(i, native),
    ensures
        same(i, native, first, second, previous),
{
    if let VectorPlan::Lengthen { bits, shift, unsigned, first: from, count } = native {
        let width = shifted_element(i.operands.shift_immediate);
        assert(bits == 8 * width);
        lemma_parts(8, width);
        assert(count == 8int / width) by (nonlinear_arith)
            requires
                count * bits == 64,
                bits == 8 * width,
                (8int / width) * width == 8,
                width >= 1,
        ;
        assert(computed_bytes(native, first, second, previous) =~= lane_result(
            i,
            first,
            second,
            previous,
        ));
    }
}

proof fn lemma_shift_by_register(
    i: FpSimdInstruction,
    native: VectorPlan,
    first: Seq<int>,
    second: Seq<int>,
    previous: Seq<int>,
)
    requires
        i.kind is VectorSignedShiftRegister || i.kind is VectorUnsignedShiftRegister,
        lane_computation_fits(i, native),
        is_vector(first),
        is_vector(second),
    ensures
        same(i, native, first, second, previous),
{
    if let VectorPlan::ShiftByRegister { bits, stages, signed, full } = native {
        let fields = i.operands;
        let width = element(fields.opc);
        let whole = filled(full);
        let count = whole / width;
        lemma_parts(whole, width);
        assert(bits == 8 * width && extent(fields) == whole);
        let modulus = pow2((8 * width) as nat) as int;
        let planned = |k: int|
            staged_lane(lane(first, width, k), as_signed(second[k * width], 1), bits, signed);
        let meant = |k: int|
            moved(
                if i.kind is VectorSignedShiftRegister {
                    as_signed(lane(first, width, k), width)
                } else {
                    lane(first, width, k)
                },
                as_signed(second[k * width], 1),
            );
        assert forall|k: int| 0 <= k < count implies (#[trigger] planned(k)) % modulus == meant(k)
            % modulus by {
            assert((k + 1) * width <= 16 && 0 <= k * width < 16) by (nonlinear_arith)
                requires
                    0 <= k,
                    k + 1 <= count,
                    count * width <= 16,
                    width >= 1,
            ;
            lemma_lane_bound(first, width, k);
            let value = lane(first, width, k);
            let distance = as_signed(second[k * width], 1);
            lemma2_to64();
            lemma_pow2_unfold((8 * width) as nat);
            law_stages_shift_lanes(value, distance, bits, signed);
            assert(lane_number(value, bits, signed) == if signed {
                as_signed(value, width)
            } else {
                value
            });
            lemma_pow2_pos((8 * width) as nat);
            if distance >= 0 {
                let power = pow2(distance as nat) as int;
                lemma_mod_twice(value * power, modulus);
                if signed && as_signed(value, width) != value {
                    assert((value - modulus) * power == modulus * (-power) + value * power)
                        by (nonlinear_arith);
                    lemma_mod_multiples_vanish(-power, value * power, modulus);
                }
            } else {
                let power = pow2((-distance) as nat) as int;
                lemma_mod_twice(lane_number(value, bits, signed) / power, modulus);
            }
        }
        lemma_congruent_lanes(width, count, planned, meant);
    }
}

proof fn lemma_digits_add_up(value: int, count: nat)
    requires
        0 <= value,
    ensures
        number_of(Seq::new(count, |b: int| digit(value, b))) == value % pow2(8 * count) as int,
    decreases count,
{
    let digits = Seq::new(count, |b: int| digit(value, b));
    if count == 0 {
        lemma2_to64();
    } else {
        let rest = (count - 1) as nat;
        lemma_digits_add_up(value, rest);
        assert(digits.drop_last() =~= Seq::new(rest, |b: int| digit(value, b)));
        lemma_pow2_adds(8 * rest, 8);
        lemma2_to64();
        lemma_pow2_pos(8 * rest);
        let power = pow2(8 * rest) as int;
        lemma_mod_breakdown(value, power, 256);
        assert(power * 256 == pow2(8 * count));
        assert(digits.last() == (value / power) % 256);
        assert(digits.last() * power == power * digits.last()) by (nonlinear_arith);
    }
}

/// A lane of a vector that was put together of lanes.
proof fn lemma_lane_of_lanes(width: int, count: int, value: spec_fn(int) -> int, k: int)
    requires
        width == 1 || width == 2 || width == 4 || width == 8,
        0 <= k < count,
        count * width <= 16,
    ensures
        lane(from_lanes(width, count, value), width, k) == value(k) % pow2(
            (8 * width) as nat,
        ) as int,
{
    let modulus = pow2((8 * width) as nat) as int;
    lemma_pow2_pos((8 * width) as nat);
    let cut = value(k) % modulus;
    lemma_mod_bound(value(k), modulus);
    lemma_small_mod(cut as nat, modulus as nat);
    lemma_digits_add_up(cut, width as nat);
    let vector = from_lanes(width, count, value);
    let part = vector.subrange(k * width, (k + 1) * width);
    let digits = Seq::new(width as nat, |b: int| digit(cut, b));
    assert(0 <= k * width && (k + 1) * width == k * width + width && (k + 1) * width <= count
        * width) by (nonlinear_arith)
        requires
            0 <= k < count,
            width >= 1,
    ;
    assert forall|b: int| 0 <= b < width implies #[trigger] part[b] == digits[b] by {
        let j = k * width + b;
        lemma_fundamental_div_mod_converse(j, width, k, b);
        assert(width * count == count * width) by (nonlinear_arith);
        assert(part[b] == vector[j]);
    }
    assert(part =~= digits);
}

/// The lanes after some folds, without a limit on their size.
spec fn ideal(lanes: Seq<int>, folds: nat) -> Seq<int>
    decreases folds,
{
    if folds == 0 {
        lanes
    } else {
        fold(ideal(lanes, (folds - 1) as nat), distance_of(lanes.len() as int, folds - 1))
    }
}

proof fn lemma_ideal_len(lanes: Seq<int>, folds: nat)
    ensures
        ideal(lanes, folds).len() == lanes.len(),
    decreases folds,
{
    if folds > 0 {
        lemma_ideal_len(lanes, (folds - 1) as nat);
    }
}

/// How many lanes are left to add after some folds.
spec fn left(count: int, folds: nat) -> int {
    if folds == 0 {
        count
    } else {
        distance_of(count, folds - 1)
    }
}

proof fn lemma_distances(count: int, folds: nat)
    requires
        count == 1 || count == 2 || count == 4 || count == 8 || count == 16,
        folds <= halvings(count),
    ensures
        folds < halvings(count) ==> left(count, folds) == 2 * distance_of(count, folds as int)
            && distance_of(count, folds as int) >= 1,
        folds == halvings(count) ==> left(count, folds) == 1,
        halvings(count) <= 4,
        left(count, folds) <= count,
{
    reveal_with_fuel(halvings, 6);
    reveal_with_fuel(distance_of, 6);
    assert(halvings(1) == 0);
    assert(halvings(2) == 1);
    assert(halvings(4) == 2);
    assert(halvings(8) == 3);
    assert(halvings(16) == 4);
    assert(folds == 0 || folds == 1 || folds == 2 || folds == 3 || folds == 4);
}

proof fn lemma_folds_keep_the_sum(lanes: Seq<int>, folds: nat)
    requires
        lanes.len() == 1 || lanes.len() == 2 || lanes.len() == 4 || lanes.len() == 8 || lanes.len()
            == 16,
        folds <= halvings(lanes.len() as int),
    ensures
        total(ideal(lanes, folds).take(left(lanes.len() as int, folds))) == total(lanes),
    decreases folds,
{
    let count = lanes.len() as int;
    if folds == 0 {
        assert(lanes.take(count) =~= lanes);
    } else {
        let rest = (folds - 1) as nat;
        lemma_folds_keep_the_sum(lanes, rest);
        lemma_distances(count, rest);
        lemma_ideal_len(lanes, rest);
        law_fold_keeps_the_sum(ideal(lanes, rest), distance_of(count, rest as int));
    }
}

proof fn lemma_across(first: Seq<int>, masks: Seq<Vec<u8>>, width: int, count: int, folds: nat, k: int)
    requires
        is_vector(first),
        width == 1 || width == 2 || width == 4 || width == 8,
        count * width == 8 || count * width == 16,
        count == 1 || count == 2 || count == 4 || count == 8 || count == 16,
        masks.len() == halvings(count),
        folds <= masks.len(),
        forall|m: int|
            0 <= m < masks.len() ==> moves_lanes(
                #[trigger] masks[m]@,
                count,
                width,
                |lane: int| LaneOf { second: false, lane: folded(distance_of(count, m), lane) },
            ),
        0 <= k < count,
    ensures
        across(first, masks, width, folds).len() == 16,
        lane(across(first, masks, width, folds), width, k) == ideal(
            all_lanes(first, width, count),
            folds,
        )[k] % pow2((8 * width) as nat) as int,
    decreases folds,
{
    let modulus = pow2((8 * width) as nat) as int;
    let lanes = all_lanes(first, width, count);
    lemma_pow2_pos((8 * width) as nat);
    assert((k + 1) * width <= count * width) by (nonlinear_arith)
        requires
            k + 1 <= count,
            width >= 1,
    ;
    if folds == 0 {
        lemma_lane_bound(first, width, k);
        lemma_small_mod(lane(first, width, k) as nat, modulus as nat);
    } else {
        let rest = (folds - 1) as nat;
        let before = across(first, masks, width, rest);
        let mask = masks[rest as int]@;
        let distance = distance_of(count, rest as int);
        let from = |lane: int| LaneOf { second: false, lane: folded(distance, lane) };
        let value = |k: int|
            lane(before, width, k) + lane(shuffled(mask, before, before), width, k);
        lemma_distances(count, rest);
        let other = folded(distance, k);
        assert(0 <= other < count);
        lemma_across(first, masks, width, count, rest, k);
        lemma_across(first, masks, width, count, rest, other);
        assert((other + 1) * width <= count * width) by (nonlinear_arith)
            requires
                other + 1 <= count,
                width >= 1,
        ;
        lemma_shuffled_lane(mask, count, width, from, before, before, k);
        lemma_parts(16, width);
        assert(count <= 16int / width) by (nonlinear_arith)
            requires
                count * width <= (16int / width) * width,
                width >= 1,
        ;
        lemma_lane_of_lanes(width, 16int / width, value, k);
        lemma_ideal_len(lanes, rest);
        let (p, q) = (ideal(lanes, rest)[k], ideal(lanes, rest)[other]);
        lemma_add_mod_noop(p, q, modulus);
        assert(ideal(lanes, folds)[k] == p + q);
    }
}

proof fn lemma_add_across(
    i: FpSimdInstruction,
    native: VectorPlan,
    first: Seq<int>,
    second: Seq<int>,
    previous: Seq<int>,
)
    requires
        i.kind is AddAcrossVector,
        lane_computation_fits(i, native),
        is_vector(first),
    ensures
        same(i, native, first, second, previous),
{
    if let VectorPlan::AddAcross { bits, masks } = native {
        let fields = i.operands;
        let width = element(fields.opc);
        let count = extent(fields) / width;
        lemma_parts(extent(fields), width);
        lemma_bit_parts(fields);
        assert(bits == 8 * width);
        let lanes = all_lanes(first, width, count);
        let folds = masks@.len();
        lemma_across(first, masks@, width, count, folds, 0);
        lemma_folds_keep_the_sum(lanes, folds);
        lemma_distances(count, folds);
        lemma_ideal_len(lanes, folds);
        let last = ideal(lanes, folds);
        assert(last.take(1).drop_last() =~= Seq::<int>::empty());
        assert(total(last.take(1)) == last[0]) by {
            reveal_with_fuel(total, 2);
        }
        lemma_pow2_pos((8 * width) as nat);
        lemma_mod_twice(total(lanes), pow2((8 * width) as nat) as int);
        lemma_congruent_lanes(
            width,
            1,
            |k: int| lane(across(first, masks@, width, folds), width, 0),
            |k: int| total(all_lanes(first, width, count)),
        );
    }
}

/// After the plan of an instruction on integer lanes each lane of the destination is the
/// operation applied to the lanes of the sources, for every state of the guest. The plan
/// takes them from the registers that it names, and its result goes to the register that
/// the instruction names.
pub proof fn law_lanes_are_computed(
    i: FpSimdInstruction,
    host: HostAbi,
    plan: FpSimdPlan,
    guest: Guest,
)
    requires
        plan_fits(i, host, plan),
        is_lane_computation(i.kind),
        allocated(i),
    ensures
        plan.registers.destination == Some(PlanRegister::Vector(i.operands.rd)),
        computed_bytes(
            plan.native,
            register_bytes(plan.registers.first, guest),
            register_bytes(plan.registers.second, guest),
            register_bytes(plan.registers.previous, guest),
        ) == lane_result(
            i,
            bytes_of(guest(StateItem::Vector(i.operands.rn))),
            bytes_of(guest(StateItem::Vector(i.operands.rm))),
            bytes_of(guest(StateItem::Vector(i.operands.rd))),
        ),
{
    let first = register_bytes(plan.registers.first, guest);
    let second = register_bytes(plan.registers.second, guest);
    let previous = register_bytes(plan.registers.previous, guest);
    assert forall|value: u128, k: int| 0 <= #[trigger] digit(value as int, k) < 256 by {}
    assert(is_vector(first) && is_vector(second) && is_vector(previous));
    match i.kind {
        FpSimdKind::Integer
        | FpSimdKind::IntegerCompare
        | FpSimdKind::IntegerMinMax
        | FpSimdKind::Bitwise
        | FpSimdKind::CountBits => lemma_elementwise(i, plan.native, first, second, previous),
        FpSimdKind::IntegerPairwise => lemma_pairwise(i, plan.native, first, second, previous),
        FpSimdKind::PermuteTwoSource => {
            lemma_permutation(i, plan.native, first, second, previous);
        },
        FpSimdKind::Extract => lemma_window(i, plan.native, first, second, previous),
        FpSimdKind::ShiftRightNarrow | FpSimdKind::ExtractNarrow => {
            lemma_narrow(i, plan.native, first, second, previous);
        },
        FpSimdKind::AddAcrossVector => lemma_add_across(i, plan.native, first, second, previous),
        FpSimdKind::ShiftLeftLong => lemma_lengthen(i, plan.native, first, second, previous),
        FpSimdKind::VectorSignedShiftRegister | FpSimdKind::VectorUnsignedShiftRegister => {
            lemma_shift_by_register(i, plan.native, first, second, previous);
        },
        _ => lemma_shift(i, plan.native, first, second, previous),
    }
    lemma_unused_operands(
        i,
        first,
        bytes_of(guest(StateItem::Vector(i.operands.rn))),
        second,
        bytes_of(guest(StateItem::Vector(i.operands.rm))),
        previous,
        bytes_of(guest(StateItem::Vector(i.operands.rd))),
    );
}

/// The encoding is allocated: no permutation or pairwise operation on a single lane, no
/// window that starts outside its operand, and shifts within their widths.
pub open spec fn allocated(i: FpSimdInstruction) -> bool {
    let fields = i.operands;
    &&& i.kind is IntegerPairwise || i.kind is PermuteTwoSource ==> fields.opc < 3
        || fields.vector_128
    &&& i.kind is Extract ==> fields.immediate_4 < extent(fields) && fields.immediate_4 < 16
    &&& i.kind is ExtractNarrow ==> fields.opc < 3
    &&& i.kind is ShiftRightNarrow || i.kind is ShiftLeftLong ==> 8 <= fields.shift_immediate < 64
    &&& i.kind is ScalarShiftRightImmediate || i.kind is VectorShiftRightImmediate
        || i.kind is ScalarShiftLeftImmediate || i.kind is VectorShiftLeftImmediate ==> 8
        <= fields.shift_immediate < 128
}

/// The result does not depend on an operand that the plan does not take.
proof fn lemma_unused_operands(
    i: FpSimdInstruction,
    first: Seq<int>,
    rn: Seq<int>,
    second: Seq<int>,
    rm: Seq<int>,
    previous: Seq<int>,
    rd: Seq<int>,
)
    requires
        first == rn,
        i.kind is Integer || i.kind is Bitwise || i.kind is IntegerMinMax || i.kind is IntegerPairwise
            || i.kind is PermuteTwoSource || i.kind is Extract
            || i.kind is VectorSignedShiftRegister || i.kind is VectorUnsignedShiftRegister || (
        i.kind is IntegerCompare && !i.operands.compare_with_zero) ==> second == rm,
        (i.kind is ShiftRightNarrow || i.kind is ExtractNarrow) && i.operands.vector_128
            ==> previous == rd,
        i.kind is Bitwise && (i.operands.bitwise_operation->0 is Select
            || i.operands.bitwise_operation->0 is InsertIfTrue
            || i.operands.bitwise_operation->0 is InsertIfFalse) ==> previous == rd,
    ensures
        lane_result(i, first, second, previous) == lane_result(i, rn, rm, rd),
{
    assert(lane_result(i, first, second, previous) =~= lane_result(i, rn, rm, rd));
}

} // verus!
