//! Loads and stores of vector registers.

use vstd::prelude::*;
use super::immediates::{sign_extend, signed_field};
use crate::decode::{
    FpSimdInstruction, FpSimdKind, MemoryAccessSize, SimdMemoryMode, StructureShape,
};
use crate::direct::error::{DirectJitError, DirectJitErrorKind};

verus! {

/// How the register of an indexed address is widened.
#[derive(Clone, Copy, Debug, PartialEq, Eq, Structural)]
pub enum Extension {
    UnsignedWord,
    SignedWord,
    Full,
}

/// An address relative to the base register.
#[derive(Clone, Copy, Debug, PartialEq, Eq, Structural)]
pub enum VectorAddress {
    Displaced { offset: i64 },
    Indexed { register: u8, extension: Extension, shift: u8 },
}

/// A transfer of one register. The base register is register `base`, where 31 is
/// the stack pointer.
#[derive(Clone, Copy, Debug, PartialEq, Eq, Structural)]
pub struct VectorAccess {
    pub register: u8,
    pub base: u8,
    pub size: MemoryAccessSize,
    pub load: bool,
    pub address: VectorAddress,
    /// What is added to the base register afterwards.
    pub writeback: Option<i64>,
}

pub open spec fn extension_of(option: u8) -> Option<Extension> {
    if option == 2 {
        Some(Extension::UnsignedWord)
    } else if option == 6 {
        Some(Extension::SignedWord)
    } else if option == 3 || option == 7 {
        Some(Extension::Full)
    } else {
        None
    }
}

/// The power of two that a size is.
pub open spec fn size_power(size: MemoryAccessSize) -> int {
    match size {
        MemoryAccessSize::Byte => 0,
        MemoryAccessSize::Halfword => 1,
        MemoryAccessSize::Word => 2,
        MemoryAccessSize::Doubleword => 3,
        MemoryAccessSize::Quadword => 4,
    }
}

fn power(size: MemoryAccessSize) -> (r: u8)
    ensures
        r == size_power(size),
{
    match size {
        MemoryAccessSize::Byte => 0,
        MemoryAccessSize::Halfword => 1,
        MemoryAccessSize::Word => 2,
        MemoryAccessSize::Doubleword => 3,
        MemoryAccessSize::Quadword => 4,
    }
}

pub open spec fn is_single_access(kind: FpSimdKind) -> bool {
    kind is MemoryUnsigned || kind is MemoryUnscaled || kind is MemoryPostIndex
        || kind is MemoryPreIndex || kind is MemoryRegister
}

/// The address of a single access, where its encoding has one.
pub open spec fn single_address(instruction: FpSimdInstruction, size: MemoryAccessSize) -> Option<
    VectorAddress,
> {
    let fields = instruction.operands;
    match instruction.kind {
        FpSimdKind::MemoryUnsigned => Some(
            VectorAddress::Displaced { offset: (fields.immediate_12 * size.byte_count()) as i64 },
        ),
        FpSimdKind::MemoryPostIndex => Some(VectorAddress::Displaced { offset: 0 }),
        FpSimdKind::MemoryRegister => match extension_of(fields.option) {
            Some(extension) => Some(
                VectorAddress::Indexed {
                    register: fields.rm,
                    extension,
                    shift: if fields.scaled {
                        size_power(size) as u8
                    } else {
                        0
                    },
                },
            ),
            None => None,
        },
        _ => Some(
            VectorAddress::Displaced { offset: signed_field(fields.immediate_9 as int, 9) as i64 },
        ),
    }
}

/// A load or store of one register.
pub fn single_access(instruction: FpSimdInstruction) -> (r: Result<VectorAccess, DirectJitError>)
    requires
        is_single_access(instruction.kind),
        instruction.operands.immediate_9 < 0x200,
    ensures
        match (r, instruction.operands.access_size) {
            (Ok(access), Some(size)) => {
                &&& single_address(instruction, size) == Some(access.address)
                &&& access.register == instruction.operands.rd
                &&& access.base == instruction.operands.rn
                &&& access.size == size
                &&& access.load == instruction.operands.load
                &&& access.writeback == if instruction.kind is MemoryPostIndex
                    || instruction.kind is MemoryPreIndex {
                    Some(signed_field(instruction.operands.immediate_9 as int, 9) as i64)
                } else {
                    None
                }
            },
            (Err(error), Some(size)) => single_address(instruction, size) is None && error.is(
                DirectJitErrorKind::InvalidGuestCode,
                "invalid SIMD register-offset extension"@,
            ),
            (Err(error), None) => error.is(
                DirectJitErrorKind::InvalidGuestCode,
                "invalid SIMD transfer size"@,
            ),
            (Ok(_), None) => false,
        },
{
    let fields = instruction.operands;
    let size = match fields.access_size {
        Some(size) => size,
        None => {
            return Err(DirectJitError::invalid("invalid SIMD transfer size"));
        },
    };
    let index: i64 = sign_extend(fields.immediate_9, 9);
    let bytes: i64 = size.bytes() as i64;
    proof {
        assert(0 <= fields.immediate_12 * bytes <= 0x10_0000) by (nonlinear_arith)
            requires
                0 <= fields.immediate_12 <= 0xffff,
                0 <= bytes <= 16,
        ;
    }
    let mut writeback: Option<i64> = None;
    let address = match instruction.kind {
        FpSimdKind::MemoryUnsigned => VectorAddress::Displaced {
            offset: fields.immediate_12 as i64 * bytes,
        },
        FpSimdKind::MemoryPostIndex => {
            writeback = Some(index);
            VectorAddress::Displaced { offset: 0 }
        },
        FpSimdKind::MemoryPreIndex => {
            writeback = Some(index);
            VectorAddress::Displaced { offset: index }
        },
        FpSimdKind::MemoryRegister => {
            let extension = match fields.option {
                2 => Extension::UnsignedWord,
                6 => Extension::SignedWord,
                3 | 7 => Extension::Full,
                _ => {
                    return Err(
                        DirectJitError::invalid("invalid SIMD register-offset extension"),
                    );
                },
            };
            VectorAddress::Indexed {
                register: fields.rm,
                extension,
                shift: if fields.scaled {
                    power(size)
                } else {
                    0
                },
            }
        },
        _ => VectorAddress::Displaced { offset: index },
    };
    Ok(
        VectorAccess {
            register: fields.rd,
            base: fields.rn,
            size,
            load: fields.load,
            address,
            writeback,
        },
    )
}

/// A load or store of two registers.
#[derive(Clone, Copy, Debug, PartialEq, Eq, Structural)]
pub struct VectorPair {
    pub first: u8,
    pub second: u8,
    pub base: u8,
    pub size: MemoryAccessSize,
    pub load: bool,
    /// Where the two lie, relative to the base register.
    pub first_offset: i64,
    pub second_offset: i64,
    pub writeback: Option<i64>,
}

pub fn emit_vector_pair(instruction: FpSimdInstruction) -> (r: Result<VectorPair, DirectJitError>)
    requires
        instruction.operands.immediate_7 < 0x80,
    ensures
        match (r, instruction.operands.access_size) {
            (Ok(pair), Some(size)) => {
                let fields = instruction.operands;
                let offset = signed_field(fields.immediate_7 as int, 7) * size.byte_count();
                &&& pair.first == fields.rd
                &&& pair.second == fields.rt2
                &&& pair.base == fields.rn
                &&& pair.size == size
                &&& pair.load == fields.load
                &&& pair.first_offset == if fields.mode == 2 || fields.mode == 3 {
                    offset
                } else {
                    0
                }
                &&& pair.second_offset == pair.first_offset + size.byte_count()
                &&& pair.writeback == if fields.mode == 1 || fields.mode == 3 {
                    Some(offset as i64)
                } else {
                    None
                }
            },
            (Err(error), None) => error.is(
                DirectJitErrorKind::InvalidGuestCode,
                "invalid SIMD pair size"@,
            ),
            _ => false,
        },
{
    let fields = instruction.operands;
    let size = match fields.access_size {
        Some(size) => size,
        None => {
            return Err(DirectJitError::invalid("invalid SIMD pair size"));
        },
    };
    let bytes: i64 = size.bytes() as i64;
    let field: i64 = sign_extend(fields.immediate_7 as u16, 7);
    proof {
        assert(-4096 <= field * bytes <= 4096) by (nonlinear_arith)
            requires
                -256 <= field < 256,
                1 <= bytes <= 16,
        ;
    }
    let offset: i64 = field * bytes;
    let first: i64 = if fields.mode == 2 || fields.mode == 3 {
        offset
    } else {
        0
    };
    Ok(
        VectorPair {
            first: fields.rd,
            second: fields.rt2,
            base: fields.rn,
            size,
            load: fields.load,
            first_offset: first,
            second_offset: first + bytes,
            writeback: if fields.mode == 1 || fields.mode == 3 {
                Some(offset)
            } else {
                None
            },
        },
    )
}

/// The part of a register that a transfer moves.
#[derive(Clone, Copy, Debug, PartialEq, Eq, Structural)]
pub enum ElementPart {
    /// From the lowest byte on. A load clears what is above.
    Low,
    /// One lane. A load keeps the other lanes.
    Lane { lane: u8 },
    /// Every lane, loaded with one element.
    Every,
}

/// One transfer of a structure access.
#[derive(Clone, Copy, Debug, PartialEq, Eq, Structural)]
pub struct ElementTransfer {
    pub register: u8,
    pub displacement: u8,
    pub element_index: u8,
    pub size: MemoryAccessSize,
    pub part: ElementPart,
}

/// What is added to the base register after a structure access.
#[derive(Clone, Copy, Debug, PartialEq, Eq, Structural)]
pub enum StructureStep {
    Nothing,
    Bytes { count: u8 },
    Register { register: u8 },
}

#[derive(Debug, PartialEq, Eq)]
pub struct StructureAccess {
    pub base: u8,
    pub load: bool,
    pub elements: Vec<ElementTransfer>,
    /// Registers whose upper half is cleared in the end.
    pub cleared: Vec<u8>,
    pub step: StructureStep,
}

pub open spec fn register_after(register: u8, count: int) -> u8 {
    ((register + count) % 32) as u8
}

/// The transfers of whole registers, or of lane after lane of registers that are
/// interleaved.
pub open spec fn multiple_elements(shape: StructureShape, rd: u8) -> Seq<ElementTransfer> {
    if shape.structure_registers == 1 {
        Seq::new(
            shape.repetitions as nat,
            |i: int|
                ElementTransfer {
                    register: register_after(rd, i),
                    displacement: (i * shape.vector_bytes) as u8,
                    element_index: i as u8,
                    size: if shape.vector_bytes == 16 {
                        MemoryAccessSize::Quadword
                    } else {
                        MemoryAccessSize::Doubleword
                    },
                    part: ElementPart::Low,
                },
        )
    } else {
        let registers = shape.structure_registers as int;
        Seq::new(
            (shape.elements_per_register * registers) as nat,
            |i: int|
                ElementTransfer {
                    register: register_after(rd, i % registers),
                    displacement: (i * shape.element_size.byte_count()) as u8,
                    element_index: i as u8,
                    size: shape.element_size,
                    part: ElementPart::Lane { lane: (i / registers) as u8 },
                },
        )
    }
}

pub open spec fn single_elements(shape: StructureShape, rd: u8) -> Seq<ElementTransfer> {
    Seq::new(
        shape.structure_registers as nat,
        |i: int|
            ElementTransfer {
                register: register_after(rd, i),
                displacement: (i * shape.element_size.byte_count()) as u8,
                element_index: i as u8,
                size: shape.element_size,
                part: match shape.mode {
                    SimdMemoryMode::Lane(lane) => ElementPart::Lane { lane },
                    _ => ElementPart::Every,
                },
            },
    )
}

/// The step of a post-indexed access.
pub open spec fn step_of(shape: StructureShape, rm: u8, post_index: bool) -> StructureStep {
    if !post_index {
        StructureStep::Nothing
    } else if rm == 31 {
        StructureStep::Bytes { count: shape.immediate_post_index }
    } else {
        StructureStep::Register { register: rm }
    }
}

fn structure_step(shape: StructureShape, rm: u8, post_index: bool) -> (r: StructureStep)
    ensures
        r == step_of(shape, rm, post_index),
{
    if !post_index {
        StructureStep::Nothing
    } else if rm == 31 {
        StructureStep::Bytes { count: shape.immediate_post_index }
    } else {
        StructureStep::Register { register: rm }
    }
}

fn whole_registers(shape: StructureShape, rd: u8) -> (r: Vec<ElementTransfer>)
    requires
        shape.valid(),
        shape.structure_registers == 1,
        rd < 32,
    ensures
        r@ == multiple_elements(shape, rd),
{
    let size = if shape.vector_bytes == 16 {
        MemoryAccessSize::Quadword
    } else {
        MemoryAccessSize::Doubleword
    };
    let mut elements: Vec<ElementTransfer> = Vec::new();
    let mut k: u8 = 0;
    while k < shape.repetitions
        invariant
            k <= shape.repetitions <= 4,
            shape.valid(),
            shape.structure_registers == 1,
            rd < 32,
            size == if shape.vector_bytes == 16 {
                MemoryAccessSize::Quadword
            } else {
                MemoryAccessSize::Doubleword
            },
            elements@ =~= multiple_elements(shape, rd).take(k as int),
        decreases shape.repetitions - k,
    {
        elements.push(
            ElementTransfer {
                register: (rd + k) % 32,
                displacement: k * shape.vector_bytes,
                element_index: k,
                size,
                part: ElementPart::Low,
            },
        );
        k = k + 1;
    }
    elements
}

fn interleaved(shape: StructureShape, rd: u8) -> (r: Vec<ElementTransfer>)
    requires
        shape.valid(),
        shape.structure_registers != 1,
        rd < 32,
    ensures
        r@ == multiple_elements(shape, rd),
{
    let bytes: u8 = shape.element_size.bytes();
    let registers: u8 = shape.structure_registers;
    let mut elements: Vec<ElementTransfer> = Vec::new();
    let mut lane: u8 = 0;
    proof {
        assert(shape.elements_per_register <= 16) by (nonlinear_arith)
            requires
                shape.elements_per_register * bytes <= 16,
                bytes >= 1,
        ;
        assert(0int * registers == 0);
    }
    while lane < shape.elements_per_register
        invariant
            lane <= shape.elements_per_register <= 16,
            shape.valid(),
            registers == shape.structure_registers,
            2 <= registers <= 4,
            bytes == shape.element_size.byte_count(),
            shape.elements_per_register * bytes <= 16,
            rd < 32,
            elements@.len() == lane * registers,
            elements@ =~= multiple_elements(shape, rd).take(lane * registers),
        decreases shape.elements_per_register - lane,
    {
        let mut offset: u8 = 0;
        while offset < registers
            invariant
                lane < shape.elements_per_register <= 16,
                offset <= registers,
                shape.valid(),
                registers == shape.structure_registers,
                2 <= registers <= 4,
                bytes == shape.element_size.byte_count(),
                shape.elements_per_register * bytes <= 16,
                rd < 32,
                elements@.len() == lane * registers + offset,
                elements@ =~= multiple_elements(shape, rd).take(lane * registers + offset),
            decreases registers - offset,
        {
            let ghost at = lane * registers + offset;
            proof {
                lemma_interleaved_place(
                    lane as int,
                    shape.elements_per_register as int,
                    registers as int,
                    offset as int,
                    bytes as int,
                );
            }
            let index: u8 = lane * registers + offset;
            elements.push(
                ElementTransfer {
                    register: (rd + offset) % 32,
                    displacement: index * bytes,
                    element_index: index,
                    size: shape.element_size,
                    part: ElementPart::Lane { lane },
                },
            );
            proof {
                assert(multiple_elements(shape, rd)[at] == elements@[at]);
                assert(elements@ =~= multiple_elements(shape, rd).take(at + 1));
            }
            offset = offset + 1;
        }
        proof {
            assert((lane + 1) * registers == lane * registers + registers) by (nonlinear_arith);
        }
        lane = lane + 1;
    }
    proof {
        assert(elements@ =~= multiple_elements(shape, rd));
    }
    elements
}

proof fn lemma_interleaved_place(lane: int, lanes: int, registers: int, offset: int, bytes: int)
    requires
        0 <= lane < lanes,
        2 <= registers <= 4,
        0 <= offset < registers,
        1 <= bytes,
        lanes * bytes <= 16,
        lanes <= 16,
    ensures
        0 <= lane * registers,
        0 <= lane * registers + offset < lanes * registers,
        lanes * registers <= 64,
        (lane * registers + offset) % registers == offset,
        (lane * registers + offset) / registers == lane,
        0 <= (lane * registers + offset) * bytes < 64,
{
    assert(lane * registers + offset < lanes * registers && 0 <= lane * registers) by (
    nonlinear_arith)
        requires
            0 <= lane < lanes,
            0 <= offset < registers,
    ;
    assert(lanes * registers <= 64) by (nonlinear_arith)
        requires
            lanes <= 16,
            0 <= registers <= 4,
            0 <= lanes,
    ;
    vstd::arithmetic::div_mod::lemma_fundamental_div_mod_converse(
        lane * registers + offset,
        registers,
        lane,
        offset,
    );
    let at = lane * registers + offset;
    let total = lanes * registers;
    assert(at * bytes < total * bytes) by (nonlinear_arith)
        requires
            at < total,
            bytes >= 1,
    ;
    assert(total * bytes == (lanes * bytes) * registers) by (nonlinear_arith)
        requires
            total == lanes * registers,
    ;
    assert((lanes * bytes) * registers <= 64) by (nonlinear_arith)
        requires
            lanes * bytes <= 16,
            0 <= registers <= 4,
            0 <= lanes * bytes,
    ;
    assert(0 <= at * bytes) by (nonlinear_arith)
        requires
            0 <= at,
            bytes >= 1,
    ;
}

/// The registers of a structure.
pub open spec fn structure_registers(shape: StructureShape, rd: u8) -> Seq<u8> {
    Seq::new(shape.structure_registers as nat, |i: int| register_after(rd, i))
}

/// A load or store of whole structures.
pub fn emit_multiple_structures(instruction: FpSimdInstruction) -> (r: Result<
    StructureAccess,
    DirectJitError,
>)
    requires
        instruction.operands.rd < 32,
        instruction.operands.structure is Some ==> instruction.operands.structure->0.valid(),
    ensures
        match (r, instruction.operands.structure) {
            (Ok(access), Some(shape)) => {
                let fields = instruction.operands;
                &&& access.base == fields.rn
                &&& access.load == fields.load
                &&& access.elements@ == multiple_elements(shape, fields.rd)
                &&& access.cleared@ == if shape.structure_registers != 1 && fields.load
                    && !fields.vector_128 {
                    structure_registers(shape, fields.rd)
                } else {
                    Seq::empty()
                }
                &&& access.step == step_of(
                    shape,
                    fields.rm,
                    instruction.kind is MemoryMultipleStructuresPostIndex,
                )
            },
            (Err(error), None) => error.is(
                DirectJitErrorKind::InvalidGuestCode,
                "invalid SIMD multiple-structure shape"@,
            ),
            _ => false,
        },
{
    let fields = instruction.operands;
    let shape = match fields.structure {
        Some(shape) => shape,
        None => {
            return Err(DirectJitError::invalid("invalid SIMD multiple-structure shape"));
        },
    };
    let elements = if shape.structure_registers == 1 {
        whole_registers(shape, fields.rd)
    } else {
        interleaved(shape, fields.rd)
    };
    let mut cleared: Vec<u8> = Vec::new();
    if shape.structure_registers != 1 && fields.load && !fields.vector_128 {
        let mut k: u8 = 0;
        while k < shape.structure_registers
            invariant
                k <= shape.structure_registers <= 4,
                fields.rd < 32,
                cleared@ =~= structure_registers(shape, fields.rd).take(k as int),
            decreases shape.structure_registers - k,
        {
            cleared.push((fields.rd + k) % 32);
            k = k + 1;
        }
        proof {
            assert(cleared@ =~= structure_registers(shape, fields.rd));
        }
    }
    let post_index: bool = matches!(
        instruction.kind,
        FpSimdKind::MemoryMultipleStructuresPostIndex
    );
    Ok(
        StructureAccess {
            base: fields.rn,
            load: fields.load,
            elements,
            cleared,
            step: structure_step(shape, fields.rm, post_index),
        },
    )
}

/// A load or store of one structure.
pub fn emit_single_structure(instruction: FpSimdInstruction) -> (r: Result<
    StructureAccess,
    DirectJitError,
>)
    requires
        instruction.operands.rd < 32,
        instruction.operands.structure is Some ==> instruction.operands.structure->0.valid(),
    ensures
        match (r, instruction.operands.structure) {
            (Ok(access), Some(shape)) => {
                let fields = instruction.operands;
                &&& !(shape.mode is Multiple)
                &&& access.base == fields.rn
                &&& access.load == (fields.load || shape.mode is Replicate)
                &&& access.elements@ == single_elements(shape, fields.rd)
                &&& access.cleared@ == if shape.mode is Replicate && !fields.vector_128 {
                    structure_registers(shape, fields.rd)
                } else {
                    Seq::empty()
                }
                &&& access.step == step_of(
                    shape,
                    fields.rm,
                    instruction.kind is MemorySingleStructurePostIndex,
                )
            },
            (Err(error), Some(shape)) => shape.mode is Multiple && error.is(
                DirectJitErrorKind::Internal,
                "single-structure shape selected multiple mode"@,
            ),
            (Err(error), None) => error.is(
                DirectJitErrorKind::InvalidGuestCode,
                "invalid SIMD single-structure shape"@,
            ),
            _ => false,
        },
{
    let fields = instruction.operands;
    let shape = match fields.structure {
        Some(shape) => shape,
        None => {
            return Err(DirectJitError::invalid("invalid SIMD single-structure shape"));
        },
    };
    let part = match shape.mode {
        SimdMemoryMode::Lane(lane) => ElementPart::Lane { lane },
        SimdMemoryMode::Replicate => ElementPart::Every,
        SimdMemoryMode::Multiple => {
            return Err(
                DirectJitError::internal("single-structure shape selected multiple mode"),
            );
        },
    };
    let replicates: bool = matches!(shape.mode, SimdMemoryMode::Replicate);
    let clears: bool = replicates && !fields.vector_128;
    let bytes: u8 = shape.element_size.bytes();
    let mut elements: Vec<ElementTransfer> = Vec::new();
    let mut cleared: Vec<u8> = Vec::new();
    let mut k: u8 = 0;
    while k < shape.structure_registers
        invariant
            k <= shape.structure_registers <= 4,
            fields.rd < 32,
            bytes == shape.element_size.byte_count(),
            bytes <= 16,
            part == match shape.mode {
                SimdMemoryMode::Lane(lane) => ElementPart::Lane { lane },
                _ => ElementPart::Every,
            },
            elements@ =~= single_elements(shape, fields.rd).take(k as int),
            clears ==> cleared@ =~= structure_registers(shape, fields.rd).take(k as int),
            !clears ==> cleared@ == Seq::<u8>::empty(),
        decreases shape.structure_registers - k,
    {
        proof {
            assert(0 <= k * bytes <= 64) by (nonlinear_arith)
                requires
                    k < 4,
                    bytes <= 16,
            ;
        }
        elements.push(
            ElementTransfer {
                register: (fields.rd + k) % 32,
                displacement: k * bytes,
                element_index: k,
                size: shape.element_size,
                part,
            },
        );
        if clears {
            cleared.push((fields.rd + k) % 32);
        }
        k = k + 1;
    }
    proof {
        assert(elements@ =~= single_elements(shape, fields.rd));
        assert(clears ==> cleared@ =~= structure_registers(shape, fields.rd));
    }
    let post_index: bool = matches!(instruction.kind, FpSimdKind::MemorySingleStructurePostIndex);
    Ok(
        StructureAccess {
            base: fields.rn,
            load: fields.load || replicates,
            elements,
            cleared,
            step: structure_step(shape, fields.rm, post_index),
        },
    )
}

/// The bytes of a transfer.
pub open spec fn element_end(element: ElementTransfer) -> int {
    element.displacement + element.size.byte_count()
}

/// The transfers of whole structures cover the memory without gap or overlap: each
/// starts where the one before it ends.
pub proof fn law_structure_transfers_are_contiguous(shape: StructureShape, rd: u8, k: int)
    requires
        shape.valid(),
        0 <= k,
        k + 1 < multiple_elements(shape, rd).len(),
    ensures
        multiple_elements(shape, rd)[0].displacement == 0,
        multiple_elements(shape, rd)[k + 1].displacement == element_end(
            multiple_elements(shape, rd)[k],
        ),
{
    let bytes = if shape.structure_registers == 1 {
        shape.vector_bytes as int
    } else {
        shape.element_size.byte_count()
    };
    let count = multiple_elements(shape, rd).len() as int;
    let lanes = shape.elements_per_register as int;
    let registers = shape.structure_registers as int;
    if registers != 1 {
        assert(count * bytes == (lanes * bytes) * registers) by (nonlinear_arith)
            requires
                count == lanes * registers,
        ;
        assert((lanes * bytes) * registers <= 64) by (nonlinear_arith)
            requires
                0 <= lanes * bytes <= 16,
                0 <= registers <= 4,
        ;
    } else {
        assert(count * bytes <= 64) by (nonlinear_arith)
            requires
                0 <= count <= 4,
                0 <= bytes <= 16,
        ;
    }
    assert((k + 1) * bytes == k * bytes + bytes) by (nonlinear_arith);
    assert((k + 1) * bytes < count * bytes) by (nonlinear_arith)
        requires
            k + 1 < count,
            bytes >= 1,
    ;
    assert(0 <= k * bytes) by (nonlinear_arith)
        requires
            0 <= k,
            bytes >= 1,
    ;
    assert(0 * bytes == 0);
}

} // verus!
