//! Constants that instructions encode.

use vstd::prelude::*;
use crate::direct::error::{DirectJitError, DirectJitErrorKind};

verus! {

/// Eight bytes as a word, the lowest byte first.
pub open spec fn word_of(bytes: Seq<u8>) -> int {
    bytes[0] + 0x100 * bytes[1] + 0x1_0000 * bytes[2] + 0x100_0000 * bytes[3] + 0x1_0000_0000
        * bytes[4] + 0x100_0000_0000 * bytes[5] + 0x1_0000_0000_0000 * bytes[6]
        + 0x100_0000_0000_0000 * bytes[7]
}

pub fn word(bytes: &Vec<u8>) -> (r: u64)
    requires
        bytes@.len() == 8,
    ensures
        r == word_of(bytes@),
{
    bytes[0] as u64 + 0x100 * bytes[1] as u64 + 0x1_0000 * bytes[2] as u64 + 0x100_0000
        * bytes[3] as u64 + 0x1_0000_0000 * bytes[4] as u64 + 0x100_0000_0000 * bytes[5] as u64
        + 0x1_0000_0000_0000 * bytes[6] as u64 + 0x100_0000_0000_0000 * bytes[7] as u64
}

/// Byte `k` of the word that a modified immediate stands for, before inversion.
pub open spec fn immediate_byte(cmode: u8, immediate: u8, operation_bit: bool, k: int) -> u8 {
    if cmode <= 7 {
        // Words that hold the immediate in one byte.
        if k % 4 == cmode / 2 {
            immediate
        } else {
            0
        }
    } else if cmode <= 11 {
        // Halfwords that hold the immediate in one byte.
        if k % 2 == (cmode / 2) % 2 {
            immediate
        } else {
            0
        }
    } else if cmode <= 13 {
        // Words that hold the immediate above one or two bytes of ones.
        if k % 4 < cmode - 11 {
            0xff
        } else if k % 4 == cmode - 11 {
            immediate
        } else {
            0
        }
    } else if !operation_bit {
        immediate
    } else if (immediate >> (k as u8)) & 1 == 1 {
        0xff
    } else {
        0
    }
}

/// The bytes are inverted.
pub open spec fn inverts(cmode: u8, operation_bit: bool) -> bool {
    operation_bit && cmode != 14
}

pub open spec fn modified_byte(cmode: u8, immediate: u8, operation_bit: bool, k: int) -> u8 {
    let byte = immediate_byte(cmode, immediate, operation_bit, k);
    if inverts(cmode, operation_bit) {
        (0xff - byte) as u8
    } else {
        byte
    }
}

fn byte_of(cmode: u8, immediate: u8, operation_bit: bool, k: u8) -> (r: u8)
    requires
        cmode <= 14,
        k < 8,
    ensures
        r == modified_byte(cmode, immediate, operation_bit, k as int),
{
    let byte: u8 = if cmode <= 7 {
        if k % 4 == cmode / 2 {
            immediate
        } else {
            0
        }
    } else if cmode <= 11 {
        if k % 2 == (cmode / 2) % 2 {
            immediate
        } else {
            0
        }
    } else if cmode <= 13 {
        if k % 4 < cmode - 11 {
            0xff
        } else if k % 4 == cmode - 11 {
            immediate
        } else {
            0
        }
    } else if !operation_bit {
        immediate
    } else if (immediate >> k) & 1 == 1 {
        0xff
    } else {
        0
    };
    if operation_bit && cmode != 14 {
        0xff - byte
    } else {
        byte
    }
}

/// The 64 bits that a modified immediate stands for.
pub fn expand_modified_immediate(cmode: u8, immediate: u8, operation_bit: bool) -> (r: Result<
    u64,
    DirectJitError,
>)
    ensures
        match r {
            Ok(value) => cmode <= 14 && value == word_of(
                Seq::new(8, |k: int| modified_byte(cmode, immediate, operation_bit, k)),
            ),
            Err(error) => cmode > 14 && error.is(
                DirectJitErrorKind::InvalidGuestCode,
                "invalid SIMD modified immediate"@,
            ),
        },
{
    if cmode > 14 {
        return Err(DirectJitError::invalid("invalid SIMD modified immediate"));
    }
    let mut bytes: Vec<u8> = Vec::new();
    let mut k: u8 = 0;
    while k < 8
        invariant
            k <= 8,
            cmode <= 14,
            bytes@.len() == k,
            forall|j: int|
                0 <= j < k ==> #[trigger] bytes@[j] == modified_byte(
                    cmode,
                    immediate,
                    operation_bit,
                    j,
                ),
        decreases 8 - k,
    {
        bytes.push(byte_of(cmode, immediate, operation_bit, k));
        k = k + 1;
    }
    proof {
        assert(bytes@ =~= Seq::new(8, |k: int| modified_byte(cmode, immediate, operation_bit, k)));
    }
    Ok(word(&bytes))
}

/// A floating-point format: one, then as many zeros as bits lie below the place.
#[derive(Clone, Copy, Debug, PartialEq, Eq, Structural)]
pub enum FloatFormat {
    Half,
    Single,
    Double,
}

impl FloatFormat {
    /// One at the sign.
    pub open spec fn sign_unit(self) -> int {
        match self {
            FloatFormat::Half => 0x8000,
            FloatFormat::Single => 0x8000_0000,
            FloatFormat::Double => 0x8000_0000_0000_0000,
        }
    }

    /// One at the lowest bit of the exponent.
    pub open spec fn exponent_unit(self) -> int {
        match self {
            FloatFormat::Half => 0x400,
            FloatFormat::Single => 0x80_0000,
            FloatFormat::Double => 0x10_0000_0000_0000,
        }
    }

    /// The exponent of one.
    pub open spec fn bias(self) -> int {
        match self {
            FloatFormat::Half => 15,
            FloatFormat::Single => 127,
            FloatFormat::Double => 1023,
        }
    }
}

/// The exponent that a packed immediate holds: one of -3 to 4.
pub open spec fn packed_exponent(immediate: u8) -> int {
    let tail = (immediate / 16) % 4;
    if (immediate / 64) % 2 == 1 {
        tail - 3
    } else {
        tail + 1
    }
}

/// The value of a packed immediate: its sign, its exponent and its four bits of
/// fraction, in the format.
pub open spec fn packed_float(immediate: u8, format: FloatFormat) -> int {
    (immediate / 128) * format.sign_unit() + (format.bias() + packed_exponent(immediate))
        * format.exponent_unit() + (immediate % 16) * (format.exponent_unit() / 16)
}

/// The bits of the number that a packed immediate stands for.
pub fn expand_vfp_immediate(immediate: u8, format: FloatFormat) -> (r: u64)
    ensures
        r == packed_float(immediate, format),
        r < 2 * format.sign_unit(),
{
    let sign: u64 = (immediate / 128) as u64;
    let tail: u64 = ((immediate / 16) % 4) as u64;
    let near: bool = (immediate / 64) % 2 == 1;
    let fraction: u64 = (immediate % 16) as u64;
    match format {
        FloatFormat::Half => {
            let exponent: u64 = if near {
                12 + tail
            } else {
                16 + tail
            };
            sign * 0x8000 + exponent * 0x400 + fraction * 0x40
        },
        FloatFormat::Single => {
            let exponent: u64 = if near {
                124 + tail
            } else {
                128 + tail
            };
            sign * 0x8000_0000 + exponent * 0x80_0000 + fraction * 0x8_0000
        },
        FloatFormat::Double => {
            let exponent: u64 = if near {
                1020 + tail
            } else {
                1024 + tail
            };
            sign * 0x8000_0000_0000_0000 + exponent * 0x10_0000_0000_0000 + fraction
                * 0x1_0000_0000_0000
        },
    }
}

/// The format of a scalar immediate.
pub fn scalar_format(opc: u8) -> (r: Result<FloatFormat, DirectJitError>)
    ensures
        match r {
            Ok(format) => format_of(opc) == Some(format),
            Err(error) => format_of(opc) is None && error.is(
                DirectJitErrorKind::InvalidGuestCode,
                "invalid scalar FP immediate width"@,
            ),
        },
{
    match opc {
        0 => Ok(FloatFormat::Single),
        1 => Ok(FloatFormat::Double),
        3 => Ok(FloatFormat::Half),
        _ => Err(DirectJitError::invalid("invalid scalar FP immediate width")),
    }
}

pub open spec fn format_of(opc: u8) -> Option<FloatFormat> {
    if opc == 0 {
        Some(FloatFormat::Single)
    } else if opc == 1 {
        Some(FloatFormat::Double)
    } else if opc == 3 {
        Some(FloatFormat::Half)
    } else {
        None
    }
}

/// A word in both halves of a vector.
pub fn both_halves(word: u64) -> (r: u128)
    ensures
        r == word + 0x1_0000_0000_0000_0000 * word,
{
    word as u128 + 0x1_0000_0000_0000_0000 * word as u128
}

/// The immediate of a vector move: every lane holds the number.
pub fn vector_float_immediate(immediate: u8, double: bool) -> (r: u128)
    ensures
        ({
            let double_lane = packed_float(immediate, FloatFormat::Double);
            let single_lane = packed_float(immediate, FloatFormat::Single);
            let half = if double {
                double_lane
            } else {
                single_lane + 0x1_0000_0000 * single_lane
            };
            r == half + 0x1_0000_0000_0000_0000 * half
        }),
{
    if double {
        both_halves(expand_vfp_immediate(immediate, FloatFormat::Double))
    } else {
        let lane: u64 = expand_vfp_immediate(immediate, FloatFormat::Single);
        both_halves(lane + 0x1_0000_0000 * lane)
    }
}

/// The number that the low `bits` bits are in two's complement.
pub open spec fn signed_field(value: int, bits: int) -> int {
    let size = if bits == 7 {
        0x80int
    } else {
        0x200int
    };
    if value < size / 2 {
        value
    } else {
        value - size
    }
}

/// A signed field of seven or nine bits.
pub fn sign_extend(value: u16, bits: u8) -> (r: i64)
    requires
        bits == 7 || bits == 9,
        bits == 7 ==> value < 0x80,
        bits == 9 ==> value < 0x200,
    ensures
        r == signed_field(value as int, bits as int),
        -256 <= r < 256,
{
    let size: i64 = if bits == 7 {
        0x80
    } else {
        0x200
    };
    if (value as i64) < size / 2 {
        value as i64
    } else {
        value as i64 - size
    }
}

} // verus!
