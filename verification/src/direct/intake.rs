//! Tests what a discovered region has to satisfy before it can be planned.

use vstd::prelude::*;
use super::region::{instructions_normalized, Region};
use super::translate::{instruction_plannable, region_plannable};
use crate::decode::{
    A64Instruction, FpSimdInstruction, FpSimdKind, MemoryAccessSize, MemoryKind, SimdMemoryMode,
    StructureShape,
};
use crate::simd::guards::names_operation;
use crate::simd::plan::plannable;

verus! {

fn shape_is_valid(shape: StructureShape) -> (r: bool)
    ensures
        r == shape.valid(),
{
    if shape.structure_registers < 1 || shape.structure_registers > 4 || shape.repetitions < 1
        || shape.repetitions > 4 {
        return false;
    }
    let registers: u8 = shape.structure_registers;
    let repetitions: u8 = shape.repetitions;
    assert(registers * repetitions <= 16) by (nonlinear_arith)
        requires
            registers <= 4,
            repetitions <= 4,
    ;
    if registers * repetitions > 4 {
        return false;
    }
    if shape.vector_bytes != 8 && shape.vector_bytes != 16 {
        return false;
    }
    if shape.element_size == MemoryAccessSize::Quadword {
        return false;
    }
    let bytes: u16 = shape.element_size.bytes() as u16;
    if shape.elements_per_register as u16 * bytes != shape.vector_bytes as u16 {
        return false;
    }
    match shape.mode {
        SimdMemoryMode::Lane(lane) => (lane as u16) * bytes < 16,
        _ => true,
    }
}

fn vector_is_normalized(instruction: FpSimdInstruction) -> (r: bool)
    ensures
        r == instruction.normalized(),
{
    let fields = instruction.operands;
    if fields.rd >= 32 || fields.rn >= 32 || fields.rm >= 32 || fields.ra >= 32 || fields.rt2 >= 32 {
        return false;
    }
    match instruction.kind {
        FpSimdKind::MemoryMultipleStructures
        | FpSimdKind::MemoryMultipleStructuresPostIndex
        | FpSimdKind::MemorySingleStructure
        | FpSimdKind::MemorySingleStructurePostIndex => match fields.structure {
            Some(shape) => shape_is_valid(shape),
            None => false,
        },
        _ => true,
    }
}

fn operation_is_named(instruction: FpSimdInstruction) -> (r: bool)
    ensures
        r == names_operation(instruction),
{
    let fields = instruction.operands;
    match instruction.kind {
        FpSimdKind::ScalarFloatAdd => fields.float_add_operation.is_some(),
        FpSimdKind::ScalarFloatMultiply => fields.float_multiply_operation.is_some(),
        FpSimdKind::ScalarFloatFusedMultiplyAdd => fields.float_fused_multiply_operation.is_some(),
        FpSimdKind::ScalarFloatRound => fields.float_round_operation.is_some(),
        FpSimdKind::ScalarFloatConvert => fields.float_conversion.is_some(),
        FpSimdKind::FloatToSignedInt
        | FpSimdKind::FloatToUnsignedInt => fields.float_to_integer_rounding.is_some(),
        _ => true,
    }
}

fn vector_is_plannable(instruction: FpSimdInstruction) -> (r: bool)
    ensures
        r == plannable(instruction),
{
    let fields = instruction.operands;
    if !vector_is_normalized(instruction) || !operation_is_named(instruction) {
        return false;
    }
    if fields.immediate_4 >= 16 || fields.immediate_5 >= 32 || fields.immediate_7 >= 0x80
        || fields.immediate_9 >= 0x200 {
        return false;
    }
    match instruction.kind {
        FpSimdKind::ShiftRightNarrow
        | FpSimdKind::ScalarShiftRightImmediate
        | FpSimdKind::VectorShiftRightImmediate
        | FpSimdKind::ScalarShiftLeftImmediate
        | FpSimdKind::VectorShiftLeftImmediate
        | FpSimdKind::ShiftLeftLong => fields.shift_immediate >= 8,
        FpSimdKind::Bitwise => fields.bitwise_operation.is_some(),
        FpSimdKind::IntegerCompare => fields.integer_comparison.is_some(),
        FpSimdKind::IntegerPairwise | FpSimdKind::IntegerMinMax => fields.pairwise_operation.is_some(),
        FpSimdKind::PermuteTwoSource => fields.permute_operation.is_some() && fields.opc < 4,
        _ => true,
    }
}

fn instruction_is_ready(instruction: A64Instruction) -> (r: bool)
    ensures
        r == (instruction.normalized() && instruction_plannable(instruction)),
{
    match instruction {
        A64Instruction::Integer(inst) => inst.rd < 32 && inst.rn < 32 && inst.rm < 32 && inst.ra
            < 32,
        A64Instruction::Memory(inst) => {
            inst.rt < 32 && inst.rt2 < 32 && inst.rn < 32 && inst.rm < 32 && (!matches!(
                inst.kind,
                MemoryKind::CompareAndSwapPair
            ) || (inst.rt < 31 && inst.rm < 31))
        },
        A64Instruction::FpSimd(inst) => vector_is_plannable(inst),
        A64Instruction::System(inst) => inst.rt < 32,
        A64Instruction::Control(inst) => inst.rd < 32 && inst.rn < 32,
        A64Instruction::RecognizedUnsupported => true,
    }
}

impl Region {
    fn starts_are_distinct(&self) -> (r: bool)
        ensures
            r == (forall|i: int, j: int|
                0 <= i < j < self.blocks@.len() ==> (#[trigger] self.blocks@[i]).start != (
                #[trigger] self.blocks@[j]).start),
    {
        let mut i: usize = 0;
        while i < self.blocks.len()
            invariant
                i <= self.blocks@.len(),
                forall|a: int, b: int|
                    0 <= a < i && a < b < self.blocks@.len() ==> (#[trigger] self.blocks@[a]).start
                        != (#[trigger] self.blocks@[b]).start,
            decreases self.blocks@.len() - i,
        {
            let mut j: usize = i + 1;
            while j < self.blocks.len()
                invariant
                    i < j <= self.blocks@.len(),
                    forall|b: int|
                        i < b < j ==> self.blocks@[i as int].start != (
                        #[trigger] self.blocks@[b]).start,
                decreases self.blocks@.len() - j,
            {
                if self.blocks[i].start == self.blocks[j].start {
                    assert(self.blocks@[i as int].start == self.blocks@[j as int].start);
                    return false;
                }
                j = j + 1;
            }
            i = i + 1;
        }
        true
    }

    fn instructions_are_ready(&self) -> (r: bool)
        ensures
            r == ((forall|k: int|
                0 <= k < self.blocks@.len() ==> instructions_normalized(
                    (#[trigger] self.blocks@[k]).instructions@,
                )) && region_plannable(*self)),
    {
        let mut b: usize = 0;
        while b < self.blocks.len()
            invariant
                b <= self.blocks@.len(),
                forall|k: int|
                    0 <= k < b ==> instructions_normalized(
                        (#[trigger] self.blocks@[k]).instructions@,
                    ),
                forall|c: int, k: int|
                    0 <= c < b && 0 <= k < self.blocks@[c].instructions@.len()
                        ==> instruction_plannable(#[trigger] self.blocks@[c].instructions@[k]),
            decreases self.blocks@.len() - b,
        {
            let instructions = &self.blocks[b].instructions;
            let mut k: usize = 0;
            while k < instructions.len()
                invariant
                    b < self.blocks@.len(),
                    instructions == self.blocks@[b as int].instructions,
                    k <= instructions@.len(),
                    forall|j: int|
                        0 <= j < k ==> (#[trigger] instructions@[j]).normalized()
                            && instruction_plannable(instructions@[j]),
                decreases instructions@.len() - k,
            {
                if !instruction_is_ready(instructions[k]) {
                    proof {
                        let bad = self.blocks@[b as int].instructions@[k as int];
                        assert(!bad.normalized() || !instruction_plannable(bad));
                    }
                    return false;
                }
                k = k + 1;
            }
            b = b + 1;
        }
        true
    }

    /// Whether the region can be planned: no two blocks start at one address, one
    /// starts where the region does, and every instruction is as the decoder gives
    /// it.
    pub fn is_ready(&self) -> (r: bool)
        ensures
            r == (self.wf() && region_plannable(*self)),
    {
        self.starts_are_distinct() && self.index_of(self.start).is_some()
            && self.instructions_are_ready()
    }
}

} // verus!
