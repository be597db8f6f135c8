use nixe_cpu_jit::abi::HostAbi;
use nixe_cpu_jit::analysis::access::{instruction_effects, WRITE_FPSR};
use nixe_cpu_jit::analysis::flow::liveness;
use nixe_cpu_jit::analysis::{
    condition_flags, BlockEffects, FlowBlock, InstructionEffects, StateSet, C, N, NZCV, V, Z,
};
use nixe_cpu_jit::decode::{
    A64Instruction, BitwiseOperation, ControlInstruction, ControlKind, FloatAddOperation,
    FpSimdInstruction, FpSimdKind, FpSimdOperands, IntegerInstruction, IntegerKind,
    MemoryInstruction, MemoryKind, ScalarTransfer, SystemInstruction, SystemKind,
};

const HOST: HostAbi = HostAbi::X86_64;

fn effects(instruction: A64Instruction) -> InstructionEffects {
    instruction_effects(instruction, HOST)
}

fn block(instructions: &[A64Instruction]) -> BlockEffects {
    let mut block = BlockEffects::default();
    for &instruction in instructions {
        block.push(effects(instruction));
    }
    block
}

fn x(index: usize) -> StateSet {
    let mut state = StateSet::default();
    state.integer.x[index] = true;
    state
}

fn integer(kind: IntegerKind, rd: u8, rn: u8, rm: u8) -> IntegerInstruction {
    IntegerInstruction {
        kind,
        rd,
        rn,
        rm,
        ra: 31,
        opcode_3: 0,
        condition: 0,
        set_flags: false,
        subtract: false,
    }
}

fn movz(rd: u8) -> A64Instruction {
    A64Instruction::Integer(IntegerInstruction {
        subtract: true,
        ..integer(IntegerKind::MoveWide, rd, 31, 31)
    })
}

fn movk(rd: u8) -> A64Instruction {
    A64Instruction::Integer(IntegerInstruction {
        subtract: true,
        set_flags: true,
        ..integer(IntegerKind::MoveWide, rd, 31, 31)
    })
}

fn operands(rd: u8, rn: u8, rm: u8) -> FpSimdOperands {
    FpSimdOperands {
        rd,
        rn,
        rm,
        ra: 0,
        rt2: 0,
        opc: 0,
        size: 0,
        cmode: 0,
        mode: 0,
        option: 0,
        condition: 0,
        nzcv_immediate: 0,
        immediate_4: 0,
        immediate_5: 0,
        immediate_7: 0,
        immediate_8: 0,
        immediate_9: 0,
        immediate_12: 0,
        fp_immediate_8: 0,
        shift_immediate: 0,
        fp_element_lane: 0,
        operation_bit: false,
        vector_128: true,
        load: false,
        scaled: false,
        subtract: false,
        compare_with_zero: false,
        signaling_compare: false,
        fixed_point_fraction_bits: None,
        float_add_operation: None,
        float_multiply_operation: None,
        float_fused_multiply_operation: None,
        float_round_operation: None,
        float_to_integer_rounding: None,
        float_conversion: None,
        bitwise_operation: None,
        integer_comparison: None,
        pairwise_operation: None,
        permute_operation: None,
        access_size: None,
        structure: None,
    }
}

fn fp(kind: FpSimdKind, operands: FpSimdOperands) -> A64Instruction {
    A64Instruction::FpSimd(FpSimdInstruction { kind, operands })
}

fn control(kind: ControlKind, condition: u8) -> A64Instruction {
    A64Instruction::Control(ControlInstruction {
        kind,
        rd: 0,
        rn: 0,
        condition,
        bit_index: 0,
        width_64: false,
        nonzero: false,
        branch_register_key: 0,
    })
}

fn load(rt: u8, rn: u8) -> A64Instruction {
    A64Instruction::Memory(MemoryInstruction {
        kind: MemoryKind::Unsigned,
        rt,
        rt2: 0,
        rn,
        rm: 0,
        mode: 0,
        load: true,
        transfer: Some(ScalarTransfer::Load),
        pair_allocated: false,
    })
}

#[test]
fn full_and_partial_integer_writes_have_distinct_inputs() {
    let movz_w0 = effects(movz(0));
    assert_eq!(movz_w0.writes, x(0));
    assert!(movz_w0.reads.is_empty(), "W writes kill the complete X value");
    let movk_x0 = effects(movk(0));
    assert_eq!(movk_x0.reads, x(0));
    assert_eq!(movk_x0.writes, x(0));
    let sequence = block(&[movz(0), movk(0)]);
    assert!(
        !sequence.live_before(x(0)).integer.x[0],
        "MOVZ defines the preserved part before MOVK"
    );
    assert!(block(&[movk(0)]).live_before(x(0)).integer.x[0]);
    assert!(effects(movz(31)).writes.is_empty(), "XZR is not state");
}

#[test]
fn vector_lane_inserts_read_only_the_preserved_destination() {
    let insert = effects(fp(FpSimdKind::InsertGeneral, operands(0, 1, 0)));
    assert!(insert.reads.integer.x[1]);
    assert!(insert.reads.vector[0]);
    assert!(!insert.reads.vector[1], "the source is X1, not V1");
    assert!(insert.writes.vector[0]);
    let fmov = effects(fp(FpSimdKind::MoveFromGeneral, operands(0, 1, 0)));
    assert!(fmov.writes.vector[0]);
    assert!(!fmov.reads.vector[0]);
    let and = effects(fp(
        FpSimdKind::Bitwise,
        FpSimdOperands {
            bitwise_operation: Some(BitwiseOperation::And),
            ..operands(0, 1, 2)
        },
    ));
    assert!(!and.reads.vector[0]);
    assert!(and.reads.vector[1] && and.reads.vector[2]);
}

fn holds(condition: u8, flags: u8) -> bool {
    let (n, z, c, v) = (flags & N != 0, flags & Z != 0, flags & C != 0, flags & V != 0);
    match condition {
        0 => z,
        1 => !z,
        2 => c,
        3 => !c,
        4 => n,
        5 => !n,
        6 => v,
        7 => !v,
        8 => c && !z,
        9 => !c || z,
        10 => n == v,
        11 => n != v,
        12 => !z && n == v,
        13 => z || n != v,
        _ => true,
    }
}

#[test]
fn flags_track_only_consumed_bits_and_survive_infrastructure() {
    assert_eq!(effects(control(ControlKind::ConditionalBranch, 0)).reads.nzcv, Z);
    let adcs = A64Instruction::Integer(IntegerInstruction {
        set_flags: true,
        ..integer(IntegerKind::AddSubCarry, 0, 1, 2)
    });
    assert_eq!(effects(adcs).reads.nzcv, C);
    assert_eq!(effects(adcs).writes.nzcv, NZCV);
    assert_eq!(condition_flags(14), 0);
    assert_eq!(condition_flags(15), 0);
    assert_eq!(condition_flags(12), N | Z | V);
    for condition in 0..16 {
        for bit in [N, Z, C, V] {
            let changes =
                (0..16_u8).any(|flags| holds(condition, flags) != holds(condition, flags ^ bit));
            assert_eq!(condition_flags(condition) & bit != 0, changes);
        }
    }
    let live = StateSet { nzcv: C | V, ..StateSet::default() };
    assert_eq!(InstructionEffects::default().live_before(live).nzcv, C | V);
    let adds = A64Instruction::Integer(IntegerInstruction {
        set_flags: true,
        ..integer(IntegerKind::AddSubShifted, 0, 1, 2)
    });
    assert_eq!(effects(adds).live_before(live).nzcv, 0);
}

#[test]
fn faults_observe_the_pre_write_state_and_helpers_keep_status() {
    let ldr = effects(load(0, 1));
    assert!(ldr.writes.integer.x[0]);
    assert!(ldr.live_before(StateSet::default()).integer.x[0]);
    assert_eq!(ldr.observe_before, StateSet::all());
    assert!(
        !block(&[movz(0), load(0, 1)]).live_in.integer.x[0],
        "a preceding write supplies the prefault value"
    );
    let counter = A64Instruction::System(SystemInstruction {
        kind: SystemKind::ReadRegister,
        rt: 0,
        hint: 0,
        system_key: 0xd53b_e040,
    });
    assert_eq!(effects(counter).observe_before, StateSet::all());
    let svc = effects(control(ControlKind::SupervisorCall, 0));
    assert_eq!(svc.live_before(StateSet::default()), StateSet::all());
    let fadd = effects(fp(
        FpSimdKind::ScalarFloatAdd,
        FpSimdOperands {
            float_add_operation: Some(FloatAddOperation::Add),
            ..operands(0, 1, 2)
        },
    ));
    assert!(fadd.reads.fpcr && fadd.reads.fpsr && fadd.writes.fpsr);
    let msr_fpsr = effects(A64Instruction::System(SystemInstruction {
        kind: SystemKind::WriteRegister,
        rt: 0,
        hint: 0,
        system_key: WRITE_FPSR,
    }));
    assert!(
        !msr_fpsr.reads.fpsr,
        "replacement does not consume old sticky status"
    );
    assert!(msr_fpsr.writes.fpsr);
}

#[test]
fn liveness_solves_diamonds_loops_and_independent_entries() {
    let write = block(&[movz(0)]);
    let empty = BlockEffects::default();
    let blocks = [
        FlowBlock {
            effects: empty,
            successors: &[1, 2],
            exit_live: StateSet::default(),
        },
        FlowBlock {
            effects: write,
            successors: &[3],
            exit_live: StateSet::default(),
        },
        FlowBlock {
            effects: empty,
            successors: &[3],
            exit_live: StateSet::default(),
        },
        FlowBlock {
            effects: empty,
            successors: &[],
            exit_live: x(0),
        },
    ];
    let live = liveness(&blocks);
    assert!(live[0].live_in.integer.x[0], "the bypass path preserves X0");
    assert!(!live[1].live_in.integer.x[0], "the writing entry kills old X0");
    assert!(live[2].live_in.integer.x[0]);
    let add = A64Instruction::Integer(integer(IntegerKind::AddSubImmediate, 0, 0, 31));
    let loop_block = [FlowBlock {
        effects: block(&[add]),
        successors: &[0],
        exit_live: x(0),
    }];
    assert!(liveness(&loop_block)[0].live_in.integer.x[0]);
}

#[test]
fn sets_are_sets() {
    let both = x(0).union(x(1));
    assert_eq!(both.without(x(0)), x(1));
    assert_eq!(both.intersection(x(0)), x(0));
    assert!(x(0).intersection(x(1)).is_empty());
    assert_eq!(StateSet::all().union(both), StateSet::all());
}
