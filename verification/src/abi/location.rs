//! Where guest values live in the host.

use vstd::arithmetic::power2::{lemma2_to64, pow2};
use vstd::prelude::*;
use super::{HostAbi, SPILL_BYTES, TRANSFER_BYTES};
use crate::analysis::{StateItem, StateSet};

verus! {

/// Architectural register encodings that generated code may not allocate.
#[derive(Clone, Copy, Debug, PartialEq, Eq)]
pub struct ReservedRegisters {
    pub frame: u8,
    pub poll: u8,
    pub arena: u8,
    pub link_scratch: &'static [u8],
}

impl HostAbi {
    pub fn reserved(self) -> (r: ReservedRegisters)
        ensures
            match self {
                HostAbi::X86_64 => r.frame == 15 && r.poll == 14 && r.arena == 13
                    && r.link_scratch@ == seq![11u8],
                HostAbi::Aarch64 => r.frame == 21 && r.poll == 20 && r.arena == 19
                    && r.link_scratch@ == seq![16u8, 17u8],
            },
    {
        match self {
            HostAbi::X86_64 => ReservedRegisters {
                frame: 15,
                poll: 14,
                arena: 13,
                link_scratch: &[11],
            },
            HostAbi::Aarch64 => ReservedRegisters {
                frame: 21,
                poll: 20,
                arena: 19,
                link_scratch: &[16, 17],
            },
        }
    }
}

#[derive(Clone, Copy, Debug, PartialEq, Eq, Structural)]
pub enum RegisterClass {
    Integer,
    Vector,
}

#[derive(Clone, Copy, Debug, PartialEq, Eq, Structural)]
pub enum ValueLocation {
    Register { class: RegisterClass, index: u8 },
    /// Absolute byte offset from the pinned frame register.
    Spill { offset: u32, bytes: u8 },
    Constant(u128),
}

pub open spec fn is_integer_width(bytes: u8) -> bool {
    bytes == 1 || bytes == 2 || bytes == 4 || bytes == 8
}

/// Integer registers that hold guest values: neither pinned, nor scratch, nor the
/// stack and frame pointers, nor the platform register.
pub open spec fn allocatable(abi: HostAbi, index: u8) -> bool {
    match abi {
        HostAbi::X86_64 => index < 16 && index != 4 && index != 5 && index != 11 && index != 13
            && index != 14 && index != 15,
        HostAbi::Aarch64 => index < 29 && index != 16 && index != 17 && index != 18 && index != 19
            && index != 20 && index != 21,
    }
}

pub open spec fn constant_fits(value: u128, bytes: u8) -> bool {
    match bytes {
        1 => value <= u8::MAX,
        2 => value <= u16::MAX,
        4 => value <= u32::MAX,
        8 => value <= u64::MAX,
        16 => true,
        _ => false,
    }
}

impl ValueLocation {
    /// The location can hold a value of `bytes` bytes.
    pub open spec fn valid_for(self, abi: HostAbi, bytes: u8) -> bool {
        match self {
            ValueLocation::Register { class: RegisterClass::Integer, index } => is_integer_width(
                bytes,
            ) && allocatable(abi, index),
            ValueLocation::Register { class: RegisterClass::Vector, index } => (is_integer_width(
                bytes,
            ) || bytes == 16) && index < if abi == HostAbi::X86_64 {
                16int
            } else {
                32int
            },
            ValueLocation::Spill { offset, bytes: extent } => {
                &&& extent == bytes
                &&& is_integer_width(bytes) || bytes == 16
                &&& TRANSFER_BYTES <= offset
                &&& offset + bytes <= SPILL_BYTES
                &&& offset % (bytes as u32) == 0
            },
            ValueLocation::Constant(value) => constant_fits(value, bytes),
        }
    }

    pub fn valid(self, abi: HostAbi, bytes: u8) -> (r: bool)
        ensures
            r == self.valid_for(abi, bytes),
    {
        match self {
            ValueLocation::Register { class: RegisterClass::Integer, index } => {
                let reserved = abi.reserved();
                let mut scratch = false;
                let mut k: usize = 0;
                while k < reserved.link_scratch.len()
                    invariant
                        k <= reserved.link_scratch@.len(),
                        scratch == exists|j: int|
                            0 <= j < k && #[trigger] reserved.link_scratch@[j] == index,
                    decreases reserved.link_scratch@.len() - k,
                {
                    if reserved.link_scratch[k] == index {
                        scratch = true;
                    }
                    k = k + 1;
                }
                proof {
                    let list = reserved.link_scratch@;
                    if abi == HostAbi::X86_64 {
                        assert(list[0] == 11);
                        assert(scratch == (index == 11));
                    } else {
                        assert(list[0] == 16 && list[1] == 17);
                        assert(scratch == (index == 16 || index == 17));
                    }
                }
                matches!(bytes, 1 | 2 | 4 | 8) && index != reserved.frame && index != reserved.poll
                    && index != reserved.arena && !scratch && match abi {
                    // r4 is RSP and r5 is RBP.
                    HostAbi::X86_64 => index < 16 && !matches!(index, 4 | 5),
                    HostAbi::Aarch64 => index < 29 && index != 18,
                }
            },
            ValueLocation::Register { class: RegisterClass::Vector, index } => {
                let limit: u8 = if abi == HostAbi::X86_64 {
                    16
                } else {
                    32
                };
                matches!(bytes, 1 | 2 | 4 | 8 | 16) && index < limit
            },
            ValueLocation::Spill { offset, bytes: extent } => {
                extent == bytes && matches!(bytes, 1 | 2 | 4 | 8 | 16) && offset >= TRANSFER_BYTES
                    && offset % (bytes as u32) == 0 && offset <= SPILL_BYTES - bytes as u32
            },
            ValueLocation::Constant(value) => match bytes {
                1 => value <= u8::MAX as u128,
                2 => value <= u16::MAX as u128,
                4 => value <= u32::MAX as u128,
                8 => value <= u64::MAX as u128,
                16 => true,
                _ => false,
            },
        }
    }

    /// The two locations share storage.
    pub open spec fn overlaps(self, other: ValueLocation) -> bool {
        match (self, other) {
            (
                ValueLocation::Register { class: ac, index: ai },
                ValueLocation::Register { class: bc, index: bi },
            ) => ac == bc && ai == bi,
            (
                ValueLocation::Spill { offset: a, bytes: an },
                ValueLocation::Spill { offset: b, bytes: bn },
            ) => a < b + bn && b < a + an,
            _ => false,
        }
    }
}

pub fn locations_overlap(a: ValueLocation, b: ValueLocation) -> (r: bool)
    ensures
        r == a.overlaps(b),
{
    match (a, b) {
        (
            ValueLocation::Register { class: ac, index: ai },
            ValueLocation::Register { class: bc, index: bi },
        ) => ac == bc && ai == bi,
        (
            ValueLocation::Spill { offset: a, bytes: an },
            ValueLocation::Spill { offset: b, bytes: bn },
        ) => (a as u64) < b as u64 + bn as u64 && (b as u64) < a as u64 + an as u64,
        _ => false,
    }
}

#[derive(Clone, Copy, Debug, PartialEq, Eq, Structural)]
pub enum GuestValue {
    General(u8),
    Sp,
    Vector(u8),
    Fpcr,
    Fpsr,
    TpidrEl0,
    TpidrroEl0,
}

impl GuestValue {
    pub open spec fn exists_in_guest(self) -> bool {
        match self {
            GuestValue::General(index) => index < 31,
            GuestValue::Vector(index) => index < 32,
            _ => true,
        }
    }

    /// The piece of guest state that the value is.
    pub open spec fn item(self) -> StateItem {
        match self {
            GuestValue::General(index) => StateItem::X(index),
            GuestValue::Sp => StateItem::Sp,
            GuestValue::Vector(index) => StateItem::Vector(index),
            GuestValue::Fpcr => StateItem::Fpcr,
            GuestValue::Fpsr => StateItem::Fpsr,
            GuestValue::TpidrEl0 => StateItem::TpidrEl0,
            GuestValue::TpidrroEl0 => StateItem::TpidrroEl0,
        }
    }

    pub open spec fn width(self) -> u8 {
        match self {
            GuestValue::Vector(_) => 16,
            GuestValue::Fpcr | GuestValue::Fpsr => 4,
            _ => 8,
        }
    }

    pub fn state(self) -> (r: Option<StateSet>)
        ensures
            r is Some <==> self.exists_in_guest(),
            r matches Some(state) ==> state@ == set![self.item()] && state.nzcv == 0,
    {
        let mut state = StateSet::default();
        let ghost empty = state;
        match self {
            GuestValue::General(index) => {
                if index >= 31 {
                    return None;
                }
                state.integer.x[index as usize] = true;
            },
            GuestValue::Vector(index) => {
                if index >= 32 {
                    return None;
                }
                state.vector[index as usize] = true;
            },
            GuestValue::Sp => {
                state.integer.sp = true;
            },
            GuestValue::Fpcr => {
                state.fpcr = true;
            },
            GuestValue::Fpsr => {
                state.fpsr = true;
            },
            GuestValue::TpidrEl0 => {
                state.tpidr_el0 = true;
            },
            GuestValue::TpidrroEl0 => {
                state.tpidrro_el0 = true;
            },
        }
        proof {
            assert forall|item: StateItem| state@.contains(item) == (item == self.item()) by {
                assert(!empty@.contains(item));
                assert(!empty.holds(item));
            }
            assert(state@ =~= set![self.item()]);
        }
        Some(state)
    }

    pub fn bytes(self) -> (r: u8)
        ensures
            r == self.width(),
    {
        match self {
            GuestValue::Vector(_) => 16,
            GuestValue::Fpcr | GuestValue::Fpsr => 4,
            _ => 8,
        }
    }
}

#[derive(Clone, Copy, Debug, PartialEq, Eq, Structural)]
pub struct ValueBinding {
    pub value: GuestValue,
    pub location: ValueLocation,
}

/// A byte of a spill area.
pub open spec fn in_spill(location: ValueLocation, byte: int) -> bool {
    match location {
        ValueLocation::Spill { offset, bytes } => offset <= byte < offset + bytes,
        _ => false,
    }
}

/// Two locations share storage exactly where they are one register, or where some byte
/// lies in both; constants share none. Which of them comes first makes no difference.
pub proof fn law_overlap_is_shared_storage(a: ValueLocation, b: ValueLocation)
    requires
        a matches ValueLocation::Spill { bytes, .. } ==> bytes > 0,
        b matches ValueLocation::Spill { bytes, .. } ==> bytes > 0,
    ensures
        a.overlaps(b) == b.overlaps(a),
        a.overlaps(b) <==> (a is Register && a == b) || exists|byte: int| #[trigger]
            in_spill(a, byte) && in_spill(b, byte),
{
    match (a, b) {
        (
            ValueLocation::Spill { offset: first, bytes: an },
            ValueLocation::Spill { offset: second, bytes: bn },
        ) => {
            if a.overlaps(b) {
                let byte = if first >= second {
                    first as int
                } else {
                    second as int
                };
                assert(in_spill(a, byte) && in_spill(b, byte));
            }
        },
        _ => {},
    }
}

pub open spec fn integer_register(index: u8) -> ValueLocation {
    ValueLocation::Register { class: RegisterClass::Integer, index }
}

/// The registers that may hold guest values on the two hosts, one by one. No pinned register
/// is among them, nor the stack or frame pointer.
pub proof fn law_values_avoid_reserved_registers(index: u8, bytes: u8)
    requires
        bytes == 1 || bytes == 2 || bytes == 4 || bytes == 8,
    ensures
        integer_register(index).valid_for(HostAbi::X86_64, bytes) <==> index <= 3 || 6 <= index <= 10 || index == 12,
        integer_register(index).valid_for(HostAbi::Aarch64, bytes) <==> index <= 15 || 22 <= index <= 28,
{
}

/// A place that can hold a value holds all of it: a constant does not exceed the bytes, and a
/// spill slot lies on its boundary within the spill area, behind the part that transfers use.
/// Sixteen bytes never fit an integer register.
pub proof fn law_places_hold_the_whole_value(
    location: ValueLocation,
    abi: HostAbi,
    bytes: u8,
    byte: int,
)
    requires
        location.valid_for(abi, bytes),
    ensures
        bytes == 1 || bytes == 2 || bytes == 4 || bytes == 8 || bytes == 16,
        (location matches ValueLocation::Constant(value) ==> (bytes < 16 ==> value < pow2(
            (8 * bytes) as nat,
        ))),
        (location matches ValueLocation::Spill { offset, bytes: extent } ==> offset % (
        bytes as u32) == 0 && extent == bytes),
        in_spill(location, byte) ==> TRANSFER_BYTES <= byte < SPILL_BYTES,
        bytes == 16 ==> forall|index: u8| location != #[trigger] integer_register(index),
{
    lemma2_to64();
}

} // verus!
