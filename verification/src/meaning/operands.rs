//! Every plan takes what the analysis says its instruction reads, and gives what the
//! analysis says it writes.

use vstd::prelude::*;
use crate::abi::HostAbi;
use crate::analysis::access::{
    fp_general_reads, fp_general_writes, fp_sets_flags, fp_vector_reads, fp_vector_writes, general,
    is_multiple_structures, is_single_structure, only, vector, vector_run, wrapped_register,
};
use crate::analysis::StateItem;
use crate::decode::FpSimdInstruction;
use crate::simd::cold::{ColdCall, ColdOperand, ColdOutput};
use crate::simd::emit::plan_fits;
use crate::simd::guards::HostOperation;
use crate::simd::memory::{
    multiple_elements, register_after, single_elements, ElementTransfer, StructureAccess,
    StructureStep, VectorAddress,
};
use crate::simd::plan::{is_exact_call, FpSimdPlan, PlanRegister, VectorPlan};

verus! {

/// The item that a register of a plan is. General register 31 is none.
pub open spec fn named(register: Option<PlanRegister>) -> Set<StateItem> {
    match register {
        Some(PlanRegister::Vector(index)) => vector(index),
        Some(PlanRegister::General(index)) => general(index, false),
        None => Set::empty(),
    }
}

/// The vector registers that some transfers touch.
pub open spec fn touched(elements: Seq<ElementTransfer>, only_lanes: bool) -> Set<StateItem> {
    Set::new(
        |item: StateItem|
            exists|k: int|
                0 <= k < elements.len() && item == StateItem::Vector(
                    (#[trigger] elements[k]).register,
                ) && (only_lanes ==> elements[k].part is Lane),
    )
}

/// What a plan takes its values from. A store takes the registers that it stores, and a
/// load the registers that keep lanes.
pub open spec fn sources(plan: FpSimdPlan) -> Set<StateItem> {
    match plan.native {
        VectorPlan::ScalarArithmetic(own) => match own.operation {
            HostOperation::SquareRoot => vector(own.first),
            HostOperation::Fused { .. } => vector(own.first).union(vector(own.second)).union(
                vector(own.third),
            ),
            _ => vector(own.first).union(vector(own.second)),
        },
        VectorPlan::VectorArithmetic(own) => vector(own.first).union(vector(own.second)),
        VectorPlan::Compare(own) => vector(own.first).union(
            match own.second {
                Some(second) => vector(second),
                None => Set::empty(),
            },
        ),
        VectorPlan::Access(own) => general(own.base, true).union(
            match own.address {
                VectorAddress::Indexed { register, .. } => general(register, false),
                VectorAddress::Displaced { .. } => Set::empty(),
            },
        ).union(only(!own.load, vector(own.register))),
        VectorPlan::Pair(own) => general(own.base, true).union(
            only(!own.load, vector(own.first).union(vector(own.second))),
        ),
        VectorPlan::Structure(own) => general(own.base, true).union(
            match own.step {
                StructureStep::Register { register } => general(register, false),
                _ => Set::empty(),
            },
        ).union(touched(own.elements@, own.load)),
        _ => named(plan.registers.first).union(named(plan.registers.second)).union(
            named(plan.registers.previous),
        ),
    }
}

/// What a plan gives new values, the flags aside.
pub open spec fn results(plan: FpSimdPlan) -> Set<StateItem> {
    match plan.native {
        VectorPlan::ScalarArithmetic(own) => vector(own.destination),
        VectorPlan::VectorArithmetic(own) => vector(own.destination),
        VectorPlan::Compare(_) => Set::empty(),
        VectorPlan::Access(own) => only(own.load, vector(own.register)).union(
            only(own.writeback is Some, general(own.base, true)),
        ),
        VectorPlan::Pair(own) => only(own.load, vector(own.first).union(vector(own.second))).union(
            only(own.writeback is Some, general(own.base, true)),
        ),
        VectorPlan::Structure(own) => only(own.load, touched(own.elements@, false)).union(
            only(!(own.step is Nothing), general(own.base, true)),
        ),
        _ => named(plan.registers.destination),
    }
}

/// The encoding is allocated: a structure of several registers is not repeated, one that
/// is replicated is loaded, and a comparison has a second register.
pub open spec fn plain(i: FpSimdInstruction) -> bool {
    &&& i.normalized()
    &&& is_single_structure(i.kind) || (is_multiple_structures(i.kind)
        && i.operands.structure->0.structure_registers > 1) ==> i.operands.structure->0.repetitions
        == 1
    &&& is_multiple_structures(i.kind) ==> i.operands.structure->0.mode is Multiple
    &&& is_single_structure(i.kind) ==> !(i.operands.structure->0.mode is Multiple)
    &&& is_single_structure(i.kind) && i.operands.structure->0.mode is Replicate ==> i.operands.load
}

proof fn lemma_wrapped(rd: u8, offset: int)
    requires
        rd < 32,
        0 <= offset < 4,
    ensures
        register_after(rd, offset) == wrapped_register(rd, offset),
{
}

proof fn lemma_run(elements: Seq<ElementTransfer>, rd: u8, count: int, only_lanes: bool)
    requires
        rd < 32,
        0 < count <= 4,
        elements.len() >= count,
        forall|k: int|
            0 <= k < elements.len() ==> (#[trigger] elements[k]).register == register_after(
                rd,
                k % count,
            ),
        forall|k: int|
            0 <= k < elements.len() && only_lanes ==> (#[trigger] elements[k]).part is Lane,
    ensures
        touched(elements, only_lanes) == vector_run(rd, count),
{
    assert forall|item: StateItem| touched(elements, only_lanes).contains(item) == vector_run(
        rd,
        count,
    ).contains(item) by {
        if touched(elements, only_lanes).contains(item) {
            let k = choose|k: int|
                0 <= k < elements.len() && item == StateItem::Vector(
                    (#[trigger] elements[k]).register,
                ) && (only_lanes ==> elements[k].part is Lane);
            lemma_wrapped(rd, k % count);
            assert(item->Vector_0 == wrapped_register(rd, k % count));
        }
        if vector_run(rd, count).contains(item) {
            let offset = choose|offset: int|
                0 <= offset < count && item->Vector_0 == #[trigger] wrapped_register(rd, offset);
            lemma_wrapped(rd, offset);
            assert(offset % count == offset) by (nonlinear_arith)
                requires
                    0 <= offset < count,
            ;
            assert(elements[offset].register == register_after(rd, offset % count));
        }
    }
    assert(touched(elements, only_lanes) =~= vector_run(rd, count));
}

proof fn lemma_structure(i: FpSimdInstruction, access: StructureAccess)
    requires
        plain(i),
        is_multiple_structures(i.kind) || is_single_structure(i.kind),
        access.elements@ == if is_multiple_structures(i.kind) {
            multiple_elements(i.operands.structure->0, i.operands.rd)
        } else {
            single_elements(i.operands.structure->0, i.operands.rd)
        },
    ensures
        ({
            let shape = i.operands.structure->0;
            let run = vector_run(i.operands.rd, shape.structure_registers * shape.repetitions);
            let keeps = (is_multiple_structures(i.kind) && shape.structure_registers > 1) || (
            is_single_structure(i.kind) && shape.mode is Lane);
            &&& touched(access.elements@, false) == run
            &&& touched(access.elements@, true) == only(keeps, run)
        }),
{
    let shape = i.operands.structure->0;
    let elements = access.elements@;
    let rd = i.operands.rd;
    let count = shape.structure_registers * shape.repetitions;
    let keeps = (is_multiple_structures(i.kind) && shape.structure_registers > 1) || (
    is_single_structure(i.kind) && shape.mode is Lane);
    if is_multiple_structures(i.kind) && shape.structure_registers > 1 {
        let registers = shape.structure_registers as int;
        assert(count == registers) by (nonlinear_arith)
            requires
                count == registers * shape.repetitions,
                shape.repetitions == 1,
        ;
        assert(shape.elements_per_register >= 1) by (nonlinear_arith)
            requires
                shape.elements_per_register * shape.element_size.byte_count() >= 8,
                shape.elements_per_register >= 0,
        ;
        assert(elements.len() >= registers) by (nonlinear_arith)
            requires
                elements.len() == shape.elements_per_register * registers,
                shape.elements_per_register >= 1,
                registers >= 1,
        ;
    } else {
        assert(count == elements.len()) by (nonlinear_arith)
            requires
                count == shape.structure_registers * shape.repetitions,
                shape.structure_registers == 1 && elements.len() == shape.repetitions
                    || shape.repetitions == 1 && elements.len() == shape.structure_registers,
        ;
        assert forall|k: int| 0 <= k < elements.len() implies (#[trigger] elements[k]).register
            == register_after(rd, k % count) by {
            assert(k % count == k) by (nonlinear_arith)
                requires
                    0 <= k < count,
            ;
        }
    }
    lemma_run(elements, rd, count, false);
    if keeps {
        lemma_run(elements, rd, count, true);
    } else {
        assert(touched(elements, true) =~= Set::<StateItem>::empty());
    }
}

/// The registers that a plan takes its values from are exactly those that the analysis
/// says the instruction reads, and those it gives values are exactly those it writes. A
/// comparison with zero takes no second register, though its encoding names one.
pub proof fn law_plans_take_what_is_read(i: FpSimdInstruction, host: HostAbi, plan: FpSimdPlan)
    requires
        plan_fits(i, host, plan),
        plain(i),
        !(plan.native is Exact),
    ensures
        sources(plan).subset_of(fp_general_reads(i).union(fp_vector_reads(i))),
        !(i.kind is IntegerCompare && i.operands.compare_with_zero) ==> sources(plan)
            == fp_general_reads(i).union(fp_vector_reads(i)),
        results(plan) == fp_general_writes(i).union(fp_vector_writes(i)),
        plan.native is Compare <==> fp_sets_flags(i),
{
    if let VectorPlan::Structure(own) = plan.native {
        lemma_structure(i, own);
    }
    if !(i.kind is IntegerCompare && i.operands.compare_with_zero) {
        assert(sources(plan) =~= fp_general_reads(i).union(fp_vector_reads(i)));
    }
    assert(results(plan) =~= fp_general_writes(i).union(fp_vector_writes(i)));
}

/// The registers that an exact call is handed.
pub open spec fn handed(operand: ColdOperand) -> Set<StateItem> {
    match operand {
        ColdOperand::General { register } => general(register, false),
        ColdOperand::Low { register } => vector(register),
        ColdOperand::High { register } => vector(register),
        ColdOperand::Zero => Set::empty(),
    }
}

pub open spec fn all_handed(operands: Seq<ColdOperand>) -> Set<StateItem>
    decreases operands.len(),
{
    if operands.len() == 0 {
        Set::empty()
    } else {
        all_handed(operands.drop_last()).union(handed(operands.last()))
    }
}

pub open spec fn call_result(output: ColdOutput) -> Set<StateItem> {
    match output {
        ColdOutput::Vector { register } => vector(register),
        ColdOutput::General { destination: Some(register) } => general(register, false),
        ColdOutput::General { destination: None } => Set::empty(),
        ColdOutput::Flags => Set::empty(),
    }
}

/// An exact call is handed exactly the registers that the analysis says the instruction
/// reads, and its result goes to exactly what the instruction writes.
pub proof fn law_exact_calls_take_what_is_read(i: FpSimdInstruction, call: ColdCall)
    requires
        is_exact_call(i, call),
    ensures
        all_handed(call.operands@) == fp_general_reads(i).union(fp_vector_reads(i)),
        call_result(call.output) == fp_general_writes(i).union(fp_vector_writes(i)),
        call.output is Flags <==> fp_sets_flags(i),
{
    reveal_with_fuel(all_handed, 5);
    let operands = call.operands@;
    assert(operands.drop_last().drop_last().drop_last().drop_last() =~= Seq::empty()
        || operands.len() != 4);
    assert(all_handed(operands) =~= fp_general_reads(i).union(fp_vector_reads(i)));
    assert(call_result(call.output) =~= fp_general_writes(i).union(fp_vector_writes(i)));
}

} // verus!
