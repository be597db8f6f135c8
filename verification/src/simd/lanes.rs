//! Lane widths, as instructions encode them.

use vstd::prelude::*;
use crate::direct::error::{DirectJitError, DirectJitErrorKind};

verus! {

/// Eight times two to this power.
pub open spec fn lane_width(power: int) -> int {
    if power == 0 {
        8
    } else if power == 1 {
        16
    } else if power == 2 {
        32
    } else {
        64
    }
}

/// A width that a lane can have.
pub open spec fn is_lane_width(bits: u32) -> bool {
    bits == 8 || bits == 16 || bits == 32 || bits == 64
}

pub open spec fn no_lane(error: DirectJitError) -> bool {
    error.is(DirectJitErrorKind::InvalidGuestCode, "invalid SIMD lane width"@)
}

/// The width whose power the instruction names.
pub fn lane_bits(power: u8) -> (r: Result<u32, DirectJitError>)
    ensures
        match r {
            Ok(bits) => power <= 3 && bits == lane_width(power as int) && is_lane_width(bits),
            Err(error) => power > 3 && no_lane(error),
        },
{
    match power {
        0 => Ok(8),
        1 => Ok(16),
        2 => Ok(32),
        3 => Ok(64),
        _ => Err(DirectJitError::invalid("invalid SIMD lane width")),
    }
}

/// A lane of a vector.
#[derive(Clone, Copy, Debug, PartialEq, Eq, Structural)]
pub struct Lane {
    pub bits: u32,
    pub index: u8,
}

/// The power of a lane that is encoded as `index:1:0..0`: the number of zeros.
pub open spec fn selector_power(selector: u8) -> int {
    if selector % 2 == 1 {
        0
    } else if selector % 4 == 2 {
        1
    } else if selector % 8 == 4 {
        2
    } else if selector % 16 == 8 {
        3
    } else {
        4
    }
}

pub open spec fn selector_index(selector: u8) -> int {
    if selector % 2 == 1 {
        selector as int / 2
    } else if selector % 4 == 2 {
        selector as int / 4
    } else if selector % 8 == 4 {
        selector as int / 8
    } else {
        selector as int / 16
    }
}

/// The lane that a five-bit selector names. The lowest set bit gives the width and
/// the bits above it give the index.
pub fn select_lane(selector: u8) -> (r: Result<Lane, DirectJitError>)
    requires
        selector < 32,
    ensures
        match r {
            Ok(lane) => {
                &&& selector_power(selector) <= 3
                &&& lane.bits == lane_width(selector_power(selector))
                &&& is_lane_width(lane.bits)
                &&& lane.index == selector_index(selector)
                &&& (lane.index + 1) * lane.bits <= 128
            },
            Err(error) => selector_power(selector) > 3 && no_lane(error),
        },
{
    if selector % 2 == 1 {
        Ok(Lane { bits: 8, index: selector / 2 })
    } else if selector % 4 == 2 {
        Ok(Lane { bits: 16, index: selector / 4 })
    } else if selector % 8 == 4 {
        Ok(Lane { bits: 32, index: selector / 8 })
    } else if selector % 16 == 8 {
        Ok(Lane { bits: 64, index: selector / 16 })
    } else {
        Err(DirectJitError::invalid("invalid SIMD lane width"))
    }
}

/// The source lane of an element move, for lanes of the width that `selector` names.
pub fn source_lane(immediate: u8, selector: u8) -> (r: u8)
    requires
        selector < 32,
        selector_power(selector) <= 3,
    ensures
        r == immediate * 8 / lane_width(selector_power(selector)),
{
    if selector % 2 == 1 {
        immediate
    } else if selector % 4 == 2 {
        immediate / 2
    } else if selector % 8 == 4 {
        immediate / 4
    } else {
        immediate / 8
    }
}

/// A shift by an immediate.
#[derive(Clone, Copy, Debug, PartialEq, Eq, Structural)]
pub struct LaneShift {
    pub bits: u32,
    pub shift: u32,
}

/// The width that a shift immediate encodes: that of its highest set bit.
pub open spec fn shift_width(immediate: u8) -> int {
    if immediate < 16 {
        8
    } else if immediate < 32 {
        16
    } else if immediate < 64 {
        32
    } else {
        64
    }
}

/// The width and distance of a shift to the left.
pub fn left_shift(immediate: u8) -> (r: Result<LaneShift, DirectJitError>)
    requires
        immediate >= 8,
    ensures
        match r {
            Ok(shift) => {
                &&& immediate < 128
                &&& shift.bits == shift_width(immediate)
                &&& is_lane_width(shift.bits)
                &&& shift.shift == immediate - shift_width(immediate)
                &&& shift.shift < shift.bits
            },
            Err(error) => immediate >= 128 && no_lane(error),
        },
{
    let immediate: u32 = immediate as u32;
    if immediate < 16 {
        Ok(LaneShift { bits: 8, shift: immediate - 8 })
    } else if immediate < 32 {
        Ok(LaneShift { bits: 16, shift: immediate - 16 })
    } else if immediate < 64 {
        Ok(LaneShift { bits: 32, shift: immediate - 32 })
    } else if immediate < 128 {
        Ok(LaneShift { bits: 64, shift: immediate - 64 })
    } else {
        Err(DirectJitError::invalid("invalid SIMD lane width"))
    }
}

/// The width and distance of a shift to the right, which may be the whole width.
pub fn right_shift(immediate: u8) -> (r: Result<LaneShift, DirectJitError>)
    requires
        immediate >= 8,
    ensures
        match r {
            Ok(shift) => {
                &&& immediate < 128
                &&& shift.bits == shift_width(immediate)
                &&& is_lane_width(shift.bits)
                &&& shift.shift == 2 * shift_width(immediate) - immediate
                &&& 1 <= shift.shift <= shift.bits
            },
            Err(error) => immediate >= 128 && no_lane(error),
        },
{
    match left_shift(immediate) {
        Ok(left) => Ok(LaneShift { bits: left.bits, shift: left.bits - left.shift }),
        Err(error) => Err(error),
    }
}

/// The width of a scalar floating-point operand.
pub fn scalar_width(opc: u8) -> (r: Result<u32, DirectJitError>)
    ensures
        match r {
            Ok(width) => width == scalar_bits(opc) && scalar_bits(opc) != 0,
            Err(error) => scalar_bits(opc) == 0 && error.is(
                DirectJitErrorKind::InvalidGuestCode,
                "invalid scalar FP width"@,
            ),
        },
{
    match opc {
        0 => Ok(32),
        1 => Ok(64),
        3 => Ok(16),
        _ => Err(DirectJitError::invalid("invalid scalar FP width")),
    }
}

/// Zero where there is none.
pub open spec fn scalar_bits(opc: u8) -> int {
    if opc == 0 {
        32
    } else if opc == 1 {
        64
    } else if opc == 3 {
        16
    } else {
        0
    }
}

/// Lanes of this width in the part of a vector that an instruction works on.
pub fn lane_count(bits: u32, vector_128: bool) -> (r: u32)
    requires
        is_lane_width(bits),
    ensures
        r * bits == (if vector_128 {
            128int
        } else {
            64int
        }),
        1 <= r <= 16,
{
    let total: u32 = if vector_128 {
        128
    } else {
        64
    };
    total / bits
}

} // verus!
