//! What a copy between host locations does.

use vstd::prelude::*;
use crate::abi::{HostAbi, RegisterClass, ValueLocation};
use crate::executable::output::little_endian;

verus! {

/// One flag-transparent copy of `bytes` bytes.
#[derive(Clone, Copy, Debug, PartialEq, Eq, Structural)]
pub struct ValueCopy {
    pub source: ValueLocation,
    pub destination: ValueLocation,
    pub bytes: u8,
}

/// Host registers, sixteen bytes each, and the frame.
pub struct Store {
    pub register: spec_fn(RegisterClass, u8) -> Seq<u8>,
    pub frame: spec_fn(int) -> u8,
}

impl Store {
    pub open spec fn wf(self) -> bool {
        forall|class: RegisterClass, index: u8| (#[trigger] (self.register)(class, index)).len() == 16
    }

    /// The low `bytes` bytes at a location.
    pub open spec fn read(self, location: ValueLocation, bytes: u8) -> Seq<u8> {
        match location {
            ValueLocation::Register { class, index } => (self.register)(class, index).take(
                bytes as int,
            ),
            ValueLocation::Spill { offset, .. } => Seq::new(
                bytes as nat,
                |k: int| (self.frame)(offset + k),
            ),
            ValueLocation::Constant(value) => little_endian(value as int, bytes as nat),
        }
    }

    /// The store after `data` is written to a location. The rest of a register is
    /// cleared.
    pub open spec fn write(self, location: ValueLocation, data: Seq<u8>) -> Store {
        match location {
            ValueLocation::Register { class, index } => Store {
                register: |c: RegisterClass, i: u8|
                    if c == class && i == index {
                        data + Seq::new((16 - data.len()) as nat, |k: int| 0u8)
                    } else {
                        (self.register)(c, i)
                    },
                frame: self.frame,
            },
            ValueLocation::Spill { offset, .. } => Store {
                register: self.register,
                frame: |at: int|
                    if offset <= at < offset + data.len() {
                        data[at - offset]
                    } else {
                        (self.frame)(at)
                    },
            },
            ValueLocation::Constant(_) => self,
        }
    }

    pub open spec fn copy(self, copy: ValueCopy) -> Store {
        self.write(copy.destination, self.read(copy.source, copy.bytes))
    }

    /// The store after the copies, one after the other.
    pub open spec fn run(self, copies: Seq<ValueCopy>) -> Store
        decreases copies.len(),
    {
        if copies.len() == 0 {
            self
        } else {
            self.run(copies.drop_last()).copy(copies.last())
        }
    }
}

/// The extent of a spill slot is the width of the value in it; widths are at most
/// those of a vector register.
pub open spec fn sized(location: ValueLocation, bytes: u8) -> bool {
    &&& bytes <= 16
    &&& location matches ValueLocation::Spill { bytes: extent, .. } ==> extent == bytes
}

pub proof fn lemma_little_endian_len(value: int, count: nat)
    ensures
        little_endian(value, count).len() == count,
    decreases count,
{
    if count > 0 {
        lemma_little_endian_len(value / 256, (count - 1) as nat);
    }
}

pub proof fn lemma_read_len(store: Store, location: ValueLocation, bytes: u8)
    requires
        store.wf(),
        bytes <= 16,
    ensures
        store.read(location, bytes).len() == bytes,
{
    if let ValueLocation::Constant(value) = location {
        lemma_little_endian_len(value as int, bytes as nat);
    }
}

/// A written location holds what was written, and a location apart from it keeps
/// its value.
pub proof fn lemma_write(
    store: Store,
    destination: ValueLocation,
    data: Seq<u8>,
    other: ValueLocation,
    bytes: u8,
)
    requires
        store.wf(),
        data.len() <= 16,
        sized(destination, data.len() as u8),
        sized(other, bytes),
    ensures
        store.write(destination, data).wf(),
        !(destination is Constant) ==> store.write(destination, data).read(
            destination,
            data.len() as u8,
        ) == data,
        !destination.overlaps(other) ==> store.write(destination, data).read(other, bytes)
            == store.read(other, bytes),
{
    let after = store.write(destination, data);
    assert forall|class: RegisterClass, index: u8| (#[trigger] (after.register)(
        class,
        index,
    )).len() == 16 by {
        assert((store.register)(class, index).len() == 16);
    }
    if !(destination is Constant) {
        assert(after.read(destination, data.len() as u8) =~= data);
    }
    if !destination.overlaps(other) {
        assert(after.read(other, bytes) =~= store.read(other, bytes));
    }
}

/// A narrow read of a register is the low part of a wide one.
pub proof fn lemma_narrow_read(store: Store, location: ValueLocation, wide: u8, narrow: u8)
    requires
        store.wf(),
        narrow <= wide <= 16,
        location is Register,
    ensures
        store.read(location, narrow) == store.read(location, wide).take(narrow as int),
{
    if let ValueLocation::Register { class, index } = location {
        assert((store.register)(class, index).len() == 16);
        assert(store.read(location, narrow) =~= store.read(location, wide).take(narrow as int));
    }
}

/// Running one more copy.
pub proof fn lemma_run_push(store: Store, copies: Seq<ValueCopy>, copy: ValueCopy)
    ensures
        store.run(copies.push(copy)) == store.run(copies).copy(copy),
{
    assert(copies.push(copy).drop_last() =~= copies);
}

pub proof fn lemma_run_wf(store: Store, copies: Seq<ValueCopy>)
    requires
        store.wf(),
        forall|k: int|
            0 <= k < copies.len() ==> sized(
                (#[trigger] copies[k]).destination,
                copies[k].bytes,
            ),
    ensures
        store.run(copies).wf(),
    decreases copies.len(),
{
    if copies.len() > 0 {
        lemma_run_wf(store, copies.drop_last());
        let before = store.run(copies.drop_last());
        let last = copies.last();
        assert(sized(copies[copies.len() - 1].destination, last.bytes));
        lemma_read_len(before, last.source, last.bytes);
        lemma_write(
            before,
            last.destination,
            before.read(last.source, last.bytes),
            ValueLocation::Constant(0),
            0,
        );
    }
}

/// The register that transfers may use freely.
pub open spec fn scratch_of(abi: HostAbi) -> ValueLocation {
    ValueLocation::Register {
        class: RegisterClass::Integer,
        index: match abi {
            HostAbi::X86_64 => 11,
            HostAbi::Aarch64 => 16,
        },
    }
}

} // verus!
