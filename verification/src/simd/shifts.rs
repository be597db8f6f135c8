//! Lanes shifted by distances that other lanes hold.
//!
//! Native code has no shift by lane, so it shifts by powers of two, each where the
//! distance has its bit, and picks the result afterwards.

use vstd::arithmetic::div_mod::{
    lemma_fundamental_div_mod, lemma_fundamental_div_mod_converse, lemma_mul_mod_noop_left,
    lemma_small_mod,
};
use vstd::arithmetic::power2::{lemma2_to64, lemma_pow2_adds, lemma_pow2_pos, lemma_pow2_unfold, pow2};
use vstd::prelude::*;
use super::lanes::is_lane_width;

verus! {

/// How many powers of two lie below the width of a lane.
pub open spec fn stage_count(bits: u32) -> nat {
    if bits == 8 {
        3
    } else if bits == 16 {
        4
    } else if bits == 32 {
        5
    } else {
        6
    }
}

/// The stages of a shift: every power of two below the width of the lane.
pub open spec fn are_stages(stages: Seq<u32>, bits: u32) -> bool {
    &&& stages.len() == stage_count(bits)
    &&& forall|k: int| 0 <= k < stages.len() ==> #[trigger] stages[k] == pow2(k as nat)
}

pub fn shift_stages(bits: u32) -> (r: Vec<u32>)
    requires
        is_lane_width(bits),
    ensures
        are_stages(r@, bits),
{
    proof {
        lemma2_to64();
    }
    let mut r: Vec<u32> = Vec::new();
    let mut amount: u32 = 1;
    while amount < bits
        invariant
            is_lane_width(bits),
            r@.len() <= stage_count(bits),
            amount == pow2(r@.len()),
            amount >= 1,
            bits == pow2(stage_count(bits)),
            forall|k: int| 0 <= k < r@.len() ==> #[trigger] r@[k] == pow2(k as nat),
        decreases stage_count(bits) - r@.len(),
    {
        proof {
            lemma_pow2_unfold(r@.len() + 1);
            if r@.len() == stage_count(bits) {
                assert(amount == bits);
            }
        }
        r.push(amount);
        amount = amount * 2;
    }
    proof {
        if r@.len() < stage_count(bits) {
            lemma_stages_below(r@.len(), bits);
        }
    }
    r
}

proof fn lemma_stages_below(k: nat, bits: u32)
    requires
        is_lane_width(bits),
        k < stage_count(bits),
    ensures
        pow2(k) < bits,
{
    lemma2_to64();
    assert(k == 0 || k == 1 || k == 2 || k == 3 || k == 4 || k == 5);
}

/// The magnitude of a distance has the bit of a stage.
pub open spec fn takes_stage(magnitude: int, stage: nat) -> bool {
    (magnitude / pow2(stage) as int) % 2 == 1
}

/// A lane after the first stages of a shift to the left.
pub open spec fn left_after(value: int, magnitude: int, bits: u32, stages: nat) -> int
    decreases stages,
{
    if stages == 0 {
        value
    } else {
        let before = left_after(value, magnitude, bits, (stages - 1) as nat);
        if takes_stage(magnitude, (stages - 1) as nat) {
            (before * pow2(pow2((stages - 1) as nat))) % pow2(bits as nat) as int
        } else {
            before
        }
    }
}

/// A number after the first stages of a shift to the right.
pub open spec fn right_after(value: int, magnitude: int, stages: nat) -> int
    decreases stages,
{
    if stages == 0 {
        value
    } else {
        let before = right_after(value, magnitude, (stages - 1) as nat);
        if takes_stage(magnitude, (stages - 1) as nat) {
            before / pow2(pow2((stages - 1) as nat)) as int
        } else {
            before
        }
    }
}

/// The number that a lane holds.
pub open spec fn lane_number(value: int, bits: u32, signed: bool) -> int {
    if signed && value >= pow2((bits - 1) as nat) {
        value - pow2(bits as nat)
    } else {
        value
    }
}

/// A lane shifted by a distance: to the left, or to the right where the distance is
/// negative. Bits that leave are lost, and a shift to the right keeps the sign.
pub open spec fn shifted_lane(value: int, distance: int, bits: u32, signed: bool) -> int {
    if distance >= 0 {
        (value * pow2(distance as nat)) % pow2(bits as nat) as int
    } else {
        (lane_number(value, bits, signed) / pow2((-distance) as nat) as int) % pow2(
            bits as nat,
        ) as int
    }
}

/// What native code computes: both directions in stages, then what lies outside the
/// lane replaced, then the direction picked.
pub open spec fn staged_lane(value: int, distance: int, bits: u32, signed: bool) -> int {
    let magnitude = if distance >= 0 {
        distance
    } else {
        -distance
    };
    let number = lane_number(value, bits, signed);
    let outside = magnitude >= bits;
    if distance >= 0 {
        if outside {
            0
        } else {
            left_after(value, magnitude, bits, stage_count(bits))
        }
    } else {
        let shifted = if !outside {
            right_after(number, magnitude, stage_count(bits))
        } else if number < 0 {
            -1
        } else {
            0
        };
        shifted % pow2(bits as nat) as int
    }
}

proof fn lemma_div_twice(x: int, c: int, d: int)
    requires
        c > 0,
        d > 0,
    ensures
        c * d > 0,
        (x / c) / d == x / (c * d),
{
    let q = x / c;
    let r = x % c;
    let outer = q / d;
    let rest = q % d;
    lemma_fundamental_div_mod(x, c);
    lemma_fundamental_div_mod(q, d);
    assert(c * d > 0) by (nonlinear_arith)
        requires
            c > 0,
            d > 0,
    ;
    assert(x == outer * (c * d) + (c * rest + r)) by (nonlinear_arith)
        requires
            x == c * q + r,
            q == d * outer + rest,
    ;
    assert(0 <= c * rest + r < c * d) by (nonlinear_arith)
        requires
            0 <= rest < d,
            0 <= r < c,
            c > 0,
    ;
    lemma_fundamental_div_mod_converse(x, c * d, outer, c * rest + r);
}

/// The low bits of a magnitude grow by the bit of the next stage.
proof fn lemma_low_bits(magnitude: int, stage: nat)
    requires
        magnitude >= 0,
    ensures
        magnitude % pow2(stage + 1) as int == magnitude % pow2(stage) as int + if takes_stage(
            magnitude,
            stage,
        ) {
            pow2(stage) as int
        } else {
            0
        },
{
    let unit = pow2(stage) as int;
    lemma_pow2_pos(stage);
    lemma_pow2_unfold(stage + 1);
    let high = magnitude / unit;
    let low = magnitude % unit;
    lemma_fundamental_div_mod(magnitude, unit);
    let outer = high / 2;
    let bit = high % 2;
    assert(magnitude == outer * (2 * unit) + (bit * unit + low)) by (nonlinear_arith)
        requires
            magnitude == unit * high + low,
            high == 2 * outer + bit,
    ;
    assert(bit * unit == if bit == 1 {
        unit
    } else {
        0
    }) by (nonlinear_arith)
        requires
            bit == 0 || bit == 1,
    ;
    lemma_fundamental_div_mod_converse(magnitude, 2 * unit, outer, bit * unit + low);
}

proof fn lemma_left_stages(value: int, magnitude: int, bits: u32, stages: nat)
    requires
        0 <= value < pow2(bits as nat),
        magnitude >= 0,
    ensures
        left_after(value, magnitude, bits, stages) == (value * pow2(
            (magnitude % pow2(stages) as int) as nat,
        )) % pow2(bits as nat) as int,
    decreases stages,
{
    lemma2_to64();
    lemma_pow2_pos(bits as nat);
    let whole = pow2(bits as nat) as int;
    if stages == 0 {
        assert(magnitude % 1 == 0);
        assert(value * pow2(0) == value);
        lemma_small_mod(value as nat, pow2(bits as nat));
    } else {
        let last = (stages - 1) as nat;
        lemma_left_stages(value, magnitude, bits, last);
        lemma_low_bits(magnitude, last);
        lemma_pow2_pos(last);
        assert(last + 1 == stages);
        let low = (magnitude % pow2(last) as int) as nat;
        if takes_stage(magnitude, last) {
            assert((magnitude % pow2(stages) as int) as nat == low + pow2(last));
            lemma_pow2_adds(low, pow2(last));
            let before = value * pow2(low);
            lemma_mul_mod_noop_left(before, pow2(pow2(last)) as int, whole);
            assert(before * pow2(pow2(last)) == value * (pow2(low) * pow2(pow2(last))))
                by (nonlinear_arith)
                requires
                    before == value * pow2(low),
            ;
        }
    }
}

proof fn lemma_right_stages(value: int, magnitude: int, stages: nat)
    requires
        magnitude >= 0,
    ensures
        right_after(value, magnitude, stages) == value / pow2(
            (magnitude % pow2(stages) as int) as nat,
        ) as int,
    decreases stages,
{
    lemma2_to64();
    if stages == 0 {
        assert(magnitude % 1 == 0);
        assert(value / 1 == value);
    } else {
        let last = (stages - 1) as nat;
        lemma_right_stages(value, magnitude, last);
        lemma_low_bits(magnitude, last);
        lemma_pow2_pos(last);
        assert(last + 1 == stages);
        let low = (magnitude % pow2(last) as int) as nat;
        if takes_stage(magnitude, last) {
            assert((magnitude % pow2(stages) as int) as nat == low + pow2(last));
            lemma_pow2_adds(low, pow2(last));
            lemma_pow2_pos(low);
            lemma_pow2_pos(pow2(last));
            lemma_div_twice(value, pow2(low) as int, pow2(pow2(last)) as int);
        }
    }
}

proof fn lemma_far_left(value: int, distance: nat, bits: u32)
    requires
        distance >= bits,
    ensures
        (value * pow2(distance)) % pow2(bits as nat) as int == 0,
{
    let whole = pow2(bits as nat) as int;
    let rest = (distance - bits) as nat;
    lemma_pow2_pos(bits as nat);
    lemma_pow2_adds(bits as nat, rest);
    assert(value * (whole * pow2(rest)) == (value * pow2(rest)) * whole + 0) by (nonlinear_arith);
    lemma_fundamental_div_mod_converse(value * pow2(distance), whole, value * pow2(rest), 0);
}

proof fn lemma_far_right(number: int, distance: nat, bits: u32)
    requires
        distance >= bits,
        -pow2(bits as nat) <= number < pow2(bits as nat),
    ensures
        number / pow2(distance) as int == if number < 0 {
            -1int
        } else {
            0
        },
{
    let rest = (distance - bits) as nat;
    lemma_pow2_pos(bits as nat);
    lemma_pow2_pos(rest);
    lemma_pow2_adds(bits as nat, rest);
    let far = pow2(distance) as int;
    let whole = pow2(bits as nat) as int;
    let more = pow2(rest) as int;
    assert(far >= whole) by (nonlinear_arith)
        requires
            far == whole * more,
            more >= 1,
            whole >= 1,
    ;
    if number < 0 {
        lemma_fundamental_div_mod_converse(number, far, -1, number + far);
    } else {
        lemma_fundamental_div_mod_converse(number, far, 0, number);
    }
}

/// Shifting in stages shifts each lane by its distance, whatever the distance is.
pub proof fn law_stages_shift_lanes(value: int, distance: int, bits: u32, signed: bool)
    requires
        is_lane_width(bits),
        0 <= value < pow2(bits as nat),
        -128 <= distance <= 127,
    ensures
        staged_lane(value, distance, bits, signed) == shifted_lane(value, distance, bits, signed),
{
    lemma2_to64();
    lemma_pow2_unfold(bits as nat);
    lemma_pow2_pos((bits - 1) as nat);
    let count = stage_count(bits);
    assert(pow2(count) == bits);
    let number = lane_number(value, bits, signed);
    if distance >= 0 {
        if distance >= bits {
            lemma_far_left(value, distance as nat, bits);
        } else {
            lemma_left_stages(value, distance, bits, count);
            lemma_small_mod(distance as nat, pow2(count));
        }
    } else {
        let magnitude = -distance;
        if magnitude >= bits {
            lemma_far_right(number, magnitude as nat, bits);
        } else {
            lemma_right_stages(number, magnitude, count);
            lemma_small_mod(magnitude as nat, pow2(count));
        }
    }
}

} // verus!
