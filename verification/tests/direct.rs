use nixe_cpu_jit::abi::exit::NativeExitReason;
use nixe_cpu_jit::abi::flags::LazyFlags;
use nixe_cpu_jit::abi::HostAbi;
use nixe_cpu_jit::analysis::StateSet;
use nixe_cpu_jit::decode::{
    A64Instruction, ControlInstruction, ControlKind, FpSimdInstruction, FpSimdKind, FpSimdOperands,
    IntegerInstruction, IntegerKind, MemoryAccessSize,
};
use nixe_cpu_jit::direct::builds::{
    first_failure, worker_step, Build, BuildAction, BuildState, CodeState, WorkerStep,
};
use nixe_cpu_jit::direct::checks::{
    activate_when, control_check, fp_failure_exits, link_when, lookup_expression, lookup_index,
    poll_when, promote_when, propagate_flags, reconcile_check, serve_when, slow_failure_exits,
    FlagStep, WordExpr, FP_TRAP_DETAIL,
};
use nixe_cpu_jit::direct::compiler::{
    context_offset, hcq_compiler_policy, lcq_compiler_policy, module_settings, DirectCompiler,
};
use nixe_cpu_jit::direct::endings::{
    BranchTest, CellQueue, Edge, Ending, EntryCell, TranslationFault,
};
use nixe_cpu_jit::direct::error::{CpuFaultKind, DirectJitError, DirectJitErrorKind};
use nixe_cpu_jit::direct::exit::{
    direct_exit_progress, reports_registers, slice_step, CpuExit, DirectExit, ExceptionKind,
    unsupported_exit, ExitWords, GuestDecode, SliceStep,
};
use nixe_cpu_jit::direct::fault::{
    direct_access_size, locate_fault, native_fault_metadata, settle_fault, CompiledFaultSite,
    FaultArena, FaultOutcome, NativeAccess, Resolution,
};
use nixe_cpu_jit::direct::flags::{
    emit_condition, flag_c, flag_n, flag_v, flag_z, packed_flags, BitExpr, PackedFlags,
};
use nixe_cpu_jit::direct::invalidation::{
    invalidations_since, mapping_range_overlaps, summarize_invalidations, CodePageSpan,
    InvalidationKind, PublishedRegion, Regions, ReportFailure,
};
use nixe_cpu_jit::direct::loads::Register;
use nixe_cpu_jit::direct::publication::{
    account_native_bytes, decide_hcq, decide_lcq, entry_step, published_entry, EntryNode, EntryState, EntryStep,
    PublishStep,
};
use nixe_cpu_jit::direct::region::{BlockTerminator, Region, RegionBlock};
use nixe_cpu_jit::direct::registers::{
    commit_registers, read_register, read_vector, write_register, ExitTails, OperandRegister,
    RegisterChoice,
};
use nixe_cpu_jit::direct::round::{RoundAction, RoundState, Rounds};
use nixe_cpu_jit::direct::run::{
    check_binding, check_owner, check_slice, choose_entry, BoundMemory, DirectView, EntryPoint, MemoryBackend,
    MemoryState,
};
use nixe_cpu_jit::direct::scheduler::{
    hcq_worker_count, request_hcq, HcqRequest, HcqScheduler, NextRequest, PromotionStep, RegionKey,
};
use nixe_cpu_jit::direct::sites::{
    compile_fault_sites, record_direct_fault_state, source_location_for_pc, SourceRange,
};
use nixe_cpu_jit::direct::slice::{Slice, SliceAction};
use nixe_cpu_jit::direct::text::{decimal, hex};
use nixe_cpu_jit::direct::translate::{Promotion, Route, TranslateError};

const HOST: HostAbi = HostAbi::X86_64;

fn word(expression: &BitExpr<u64>) -> bool {
    match expression {
        BitExpr::Literal(bit) => *bit,
        BitExpr::Bit { value, bit } => (value >> bit) & 1 == 1,
        BitExpr::IsZero(value) => *value == 0,
        BitExpr::Word(value) => *value != 0,
        BitExpr::Below(a, b) => a < b,
        BitExpr::AtLeast(a, b) => a >= b,
        BitExpr::Above(a, b) => a > b,
        BitExpr::Same(a, b) => a == b,
        BitExpr::SumChangesSign { lhs, rhs, result, bit } => {
            ((!(lhs ^ rhs) & (lhs ^ result)) >> bit) & 1 == 1
        }
        BitExpr::DifferenceChangesSign { lhs, rhs, result, bit } => {
            (((lhs ^ rhs) & (lhs ^ result)) >> bit) & 1 == 1
        }
        BitExpr::Not(a) => !word(a),
        BitExpr::And(a, b) => word(a) && word(b),
        BitExpr::Or(a, b) => word(a) || word(b),
        BitExpr::Equal(a, b) => word(a) == word(b),
        BitExpr::Differ(a, b) => word(a) != word(b),
        BitExpr::Select { predicate, when_true, when_false } => {
            if *predicate != 0 {
                word(when_true)
            } else {
                *when_false
            }
        }
    }
}

fn computed(expression: &WordExpr<u64>) -> u64 {
    match expression {
        WordExpr::Value(value) => *value,
        WordExpr::Constant(word) => *word,
        WordExpr::ShiftRight { word, bits } => computed(word) >> bits,
        WordExpr::Xor(a, b) => computed(a) ^ computed(b),
        WordExpr::And(a, b) => computed(a) & computed(b),
    }
}

fn nzcv(flags: &LazyFlags<u64>) -> (bool, bool, bool, bool) {
    (
        word(&flag_n(flags)),
        word(&flag_z(flags)),
        word(&flag_c(flags)),
        word(&flag_v(flags)),
    )
}

#[test]
fn deferred_flags_are_those_of_the_operation() {
    let add = |lhs: u32, rhs: u32| LazyFlags::Add {
        lhs: u64::from(lhs),
        rhs: u64::from(rhs),
        result: u64::from(lhs.wrapping_add(rhs)),
        width: 32,
    };
    assert_eq!(nzcv(&add(0x7fff_ffff, 1)), (true, false, false, true));
    assert_eq!(nzcv(&add(u32::MAX, 1)), (false, true, true, false));
    let subtract = |lhs: u64, rhs: u64| LazyFlags::Subtract {
        lhs,
        rhs,
        result: lhs.wrapping_sub(rhs),
        width: 64,
    };
    assert_eq!(nzcv(&subtract(3, 3)), (false, true, true, false));
    assert_eq!(nzcv(&subtract(1 << 63, 1)), (false, false, true, true));
    assert_eq!(nzcv(&subtract(0, 1)), (true, false, false, false));
    let carried = LazyFlags::AddCarry {
        lhs: u64::MAX,
        rhs: 0,
        carry: 1,
        result: 0,
        width: 64,
    };
    assert_eq!(nzcv(&carried), (false, true, true, false));
    let borrowed = LazyFlags::SubtractCarry {
        lhs: 5,
        rhs: 5,
        carry: 0,
        result: u64::MAX,
        width: 64,
    };
    assert_eq!(nzcv(&borrowed), (true, false, false, false));
    let conditional = |predicate: u64| LazyFlags::Conditional {
        predicate,
        when_true: Box::new(LazyFlags::Logical { result: 0, width: 32 }),
        when_false: 0b1010,
    };
    assert_eq!(nzcv(&conditional(1)), (false, true, false, false));
    assert_eq!(nzcv(&conditional(0)), (true, false, true, false));
    assert_eq!(packed_flags(&LazyFlags::Packed(7)), PackedFlags::Word(7));
    assert!(matches!(packed_flags(&conditional(0)), PackedFlags::Bits { .. }));
}

#[test]
fn conditions_read_packed_flags() {
    let z_and_c = LazyFlags::Packed(0x6000_0000_u64);
    for (condition, expected) in [(0, true), (1, false), (2, true), (8, false), (9, true)] {
        assert_eq!(word(&emit_condition(condition, &z_and_c)), expected);
    }
    let n_only = LazyFlags::Canonical(0x8000_0000_u64);
    for (condition, expected) in [(10, false), (11, true), (12, false), (13, true), (14, true)] {
        assert_eq!(word(&emit_condition(condition, &n_only)), expected);
    }
}

fn access(guest_pc: u64) -> NativeAccess {
    NativeAccess { address_space: 1, guest_pc, size: 8, write: false, element_index: 0 }
}

#[test]
fn traps_find_their_access() {
    let mut pending = Vec::new();
    let first = record_direct_fault_state(&mut pending, access(0x1000));
    let second = record_direct_fault_state(&mut pending, access(0x1004));
    assert_eq!((first, second), (u32::MAX - 1, u32::MAX - 2));
    assert_eq!(source_location_for_pc(0x1000, 0x1004), 5);
    assert_eq!(source_location_for_pc(0x1000, 0), u32::MAX);
    let ranges = vec![
        SourceRange { start: 0, end: 4, location: 1 },
        SourceRange { start: 4, end: 8, location: first },
        SourceRange { start: 8, end: 16, location: second },
    ];
    let sites = compile_fault_sites(&ranges, &vec![9, 4], &pending).unwrap();
    assert_eq!(
        sites,
        vec![
            CompiledFaultSite { native_start: 4, native_end: 5, access: access(0x1000) },
            CompiledFaultSite { native_start: 9, native_end: 10, access: access(0x1004) },
        ]
    );
    for (traps, text) in [
        (vec![16], "direct memory trap falls outside its source-location range"),
        (vec![1], "direct memory trap has no pending fault site"),
        (vec![4, 4], "Cranelift direct fault-site intervals overlap"),
    ] {
        assert_eq!(compile_fault_sites(&ranges, &traps, &pending).unwrap_err().detail, text);
    }
    assert_eq!(
        compile_fault_sites(&vec![], &vec![0], &pending).unwrap_err().detail,
        "direct memory trap has no source-location range"
    );
    pending.push(pending[0]);
    assert_eq!(
        compile_fault_sites(&ranges, &vec![], &pending).unwrap_err().detail,
        "direct fault-site source locations are not unique"
    );
}

fn integer(kind: IntegerKind, rd: u8, rn: u8) -> A64Instruction {
    A64Instruction::Integer(IntegerInstruction {
        kind,
        rd,
        rn,
        rm: 31,
        ra: 31,
        opcode_3: 0,
        condition: 0,
        set_flags: false,
        subtract: false,
    })
}

fn add(rd: u8, rn: u8) -> A64Instruction {
    integer(IntegerKind::AddSubImmediate, rd, rn)
}

fn branch(kind: ControlKind) -> A64Instruction {
    A64Instruction::Control(ControlInstruction {
        kind,
        rd: 3,
        rn: 4,
        condition: 1,
        bit_index: 7,
        width_64: true,
        nonzero: true,
        branch_register_key: 0xd63f_0000,
    })
}

fn block(
    start: u64,
    instructions: Vec<A64Instruction>,
    terminator: BlockTerminator,
) -> RegionBlock {
    let source = start + 4 * (instructions.len().max(1) as u64 - 1);
    RegionBlock { start, source, instructions, terminator }
}

fn diamond() -> Region {
    Region {
        start: 0x1000,
        blocks: vec![
            block(
                0x1000,
                vec![branch(ControlKind::TestBranch)],
                BlockTerminator::Conditional { taken: 0x1010, not_taken: 0x1004 },
            ),
            block(
                0x1004,
                vec![add(0, 1), branch(ControlKind::BranchImmediate)],
                BlockTerminator::Direct { target: 0x1010 },
            ),
            block(
                0x1010,
                vec![add(2, 0), branch(ControlKind::ConditionalBranch)],
                BlockTerminator::Conditional { taken: 0x1000, not_taken: 0x2000 },
            ),
        ],
    }
}

#[test]
fn regions_are_analysed() {
    let region = diamond();
    assert_eq!(region.merged_flag_entries(), vec![true, true, true]);
    let dominators = region.block_dominators();
    assert_eq!(dominators[2], vec![true, false, true]);
    let dirty = region.dirty_states_at_entry(HOST);
    assert!(dirty[2].integer.x[0] && dirty[0].integer.x[2]);
    let loads = region.register_load_blocks(HOST);
    assert_eq!(loads.integer[1], Some(1));
    assert_eq!(loads.integer[3], Some(0));
    assert_eq!(loads.integer[5], None);
    assert!(!region.uses_native_fp(HOST));
}

#[test]
fn regions_are_translated() {
    let region = diamond();
    let plan = region
        .translate(HOST, &vec![Some(0x2000), None], &vec![77], true, None)
        .unwrap();
    assert_eq!(
        plan.blocks[0].ending,
        Ending::Branch {
            test: BranchTest::Bit { register: 3, bit: 7, nonzero: true },
            taken: Edge::Jump { target: 0x1010 },
            not_taken: Edge::Jump { target: 0x1004 },
        }
    );
    assert_eq!(
        plan.blocks[2].ending,
        Ending::Branch {
            test: BranchTest::Flags { condition: 1 },
            taken: Edge::Poll { target: 0x1000 },
            not_taken: Edge::Leave { target: 0x2000, cell: 77 },
        }
    );
    assert_eq!(plan.blocks[1].routes, vec![Route::Integer, Route::Nothing]);
    assert_eq!(plan.blocks[1].loads[0].register, Register::X(1));
    assert!(plan.blocks[0].loads.is_empty());
    assert!(plan.direct_memory && !plan.status && !plan.native_fp);
}

#[test]
fn translation_faults_are_told_apart() {
    let region = diamond();
    let translate = |exits: Vec<Option<u64>>, cells: Vec<usize>| {
        region.translate(HOST, &exits, &cells, false, None).err().unwrap()
    };
    assert_eq!(
        translate(vec![Some(0x2000)], vec![]),
        TranslateError::Fault(TranslationFault::CellCount)
    );
    assert_eq!(
        translate(vec![], vec![]),
        TranslateError::Fault(TranslationFault::MissingCell)
    );
    assert_eq!(
        translate(vec![Some(0x2004)], vec![1]),
        TranslateError::Fault(TranslationFault::CellOrder { expected: 0x2004, actual: 0x2000 })
    );
    assert_eq!(
        translate(vec![Some(0x2000), Some(0x3000)], vec![1, 2]),
        TranslateError::Fault(TranslationFault::UnusedCells)
    );
    let promotion = Promotion { hotness_address: 6, node_address: 0 };
    assert_eq!(
        region
            .translate(HOST, &vec![Some(0x2000)], &vec![1], false, Some(promotion))
            .err()
            .unwrap(),
        TranslateError::Unaligned
    );
    let strange = Region {
        start: 0,
        blocks: vec![block(0, vec![add(0, 0)], BlockTerminator::Indirect)],
    };
    assert_eq!(
        strange.translate(HOST, &vec![], &vec![], false, None).err().unwrap(),
        TranslateError::Fault(TranslationFault::NotRegisterBranch)
    );
    let unknown = Region {
        start: 0,
        blocks: vec![block(
            0,
            vec![A64Instruction::RecognizedUnsupported, add(0, 0)],
            BlockTerminator::Unsupported,
        )],
    };
    assert_eq!(
        unknown.translate(HOST, &vec![], &vec![], false, None).err().unwrap(),
        TranslateError::Unsupported { block: 0, instruction: 0 }
    );
    assert_eq!(
        TranslationFault::CellOrder { expected: 1, actual: 2 }.error("1", "2").detail,
        "direct JIT static target order mismatch: expected=1 actual=2"
    );
}

#[test]
fn endings_link_and_report() {
    let single = |terminator, last| Region {
        start: 0x100,
        blocks: vec![block(0x100, vec![last], terminator)],
    };
    let mut cells = CellQueue { cells: vec![EntryCell { target: 0x500, cell: 9 }], next: 0 };
    assert_eq!(
        single(BlockTerminator::Indirect, branch(ControlKind::BranchRegister))
            .emit_terminator(0, &mut cells),
        Ok(Ending::Register { register: 4, link: Some(0x104) })
    );
    assert_eq!(
        single(
            BlockTerminator::Call { target: 0x500, return_address: 0x104 },
            branch(ControlKind::BranchLinkImmediate)
        )
        .emit_terminator(0, &mut cells),
        Ok(Ending::Call { return_address: 0x104, target: 0x500, cell: 9 })
    );
    assert_eq!(
        single(
            BlockTerminator::SupervisorCall { syndrome: Some(0x5600_0042) },
            branch(ControlKind::SupervisorCall)
        )
        .emit_terminator(0, &mut cells),
        Ok(Ending::Exit {
            reason: NativeExitReason::Architectural,
            detail: 0x0100_0042,
            pc: 0x100,
        })
    );
    assert_eq!(
        single(BlockTerminator::Limit { continuation: 0x104 }, add(0, 0))
            .emit_terminator(0, &mut cells),
        Err(TranslationFault::MissingCell)
    );
}

#[test]
fn registers_are_kept_and_committed() {
    let mut dirty = StateSet::default();
    dirty.integer.x[3] = true;
    dirty.integer.sp = true;
    dirty.vector[2] = true;
    dirty.fpsr = true;
    let declared = RegisterChoice::of_set(&dirty);
    let commit = commit_registers(&dirty, &declared).unwrap();
    let stores: Vec<_> =
        commit.stores.iter().map(|store| (store.register, store.offset)).collect();
    assert_eq!(
        stores,
        vec![(Register::X(3), 24), (Register::Sp, 0), (Register::Vector(2), 32)]
    );
    assert!(commit.status);
    let nothing = RegisterChoice::of_set(&StateSet::default());
    assert_eq!(
        commit_registers(&dirty, &nothing).err().unwrap().detail,
        "dirty direct JIT register has no SSA variable"
    );
    assert_eq!(read_register(31, false, &nothing).unwrap(), OperandRegister::Zero);
    assert_eq!(
        read_register(31, true, &declared).unwrap(),
        OperandRegister::Value { register: Register::Sp }
    );
    assert_eq!(
        read_register(12, false, &nothing).unwrap_err().detail,
        "direct JIT register X12 was not planned"
    );
    assert_eq!(
        read_vector(9, &nothing).unwrap_err().detail,
        "direct JIT vector V9 was not planned"
    );
    let mut changed = RegisterChoice::of_set(&StateSet::default());
    write_register(3, false, &declared, &mut changed).unwrap();
    assert!(changed.chosen[3]);
    let mut tails = ExitTails::new();
    for (kind, detail) in [(4, 2), (1, 0), (4, 2), (4, 1)] {
        tails.finish_exit(kind, detail);
    }
    let tails: Vec<_> = tails.tails.iter().map(|tail| (tail.kind, tail.detail)).collect();
    assert_eq!(tails, vec![(1, 0), (4, 1), (4, 2)]);
}

#[test]
fn tier_policies_select_the_intended_cranelift_cost() {
    let lcq = module_settings(lcq_compiler_policy(), false);
    let hcq = module_settings(hcq_compiler_policy(), true);
    let value = |settings: &Vec<nixe_cpu_jit::direct::compiler::Setting>, name: &str| {
        settings.iter().find(|setting| setting.name == name).unwrap().value
    };
    assert_eq!(value(&lcq, "opt_level"), "none");
    assert_eq!(value(&lcq, "regalloc_algorithm"), "single_pass");
    assert_eq!(value(&lcq, "preserve_frame_pointers"), "true");
    assert_eq!(value(&hcq, "opt_level"), "speed");
    assert_eq!(value(&hcq, "regalloc_algorithm"), "backtracking");
    assert_eq!(value(&hcq, "preserve_frame_pointers"), "true");
    assert_eq!(value(&hcq, "enable_verifier"), "true");
}

#[test]
fn compilers_number_their_functions() {
    let mut compiler = DirectCompiler::new();
    compiler.bind_memory_backend(MemoryBackend::LinuxDirect).unwrap();
    assert_eq!(
        compiler.function_name(0x2a, 0x1000),
        "direct_00000001_000000000000002a_0000000000001000"
    );
    assert_eq!(compiler.number_function().unwrap(), 1);
    assert_eq!(
        compiler.bind_memory_backend(MemoryBackend::Checked).unwrap_err().detail,
        "JIT memory backend changed after native code publication"
    );
    compiler.next_function = u32::MAX;
    let error = compiler.number_function().unwrap_err();
    assert_eq!(error.kind, DirectJitErrorKind::Capacity);
    assert_eq!(context_offset(40).unwrap(), 40);
    assert!(context_offset(1 << 31).is_err());
}

#[test]
fn native_checks() {
    let reconcile = reconcile_check(2_u64, 1, 0);
    assert_eq!(reconcile.reason, NativeExitReason::Reconcile);
    assert!(word(&reconcile.when));
    assert!(word(&reconcile_check(1_u64, 1, 1).when));
    assert!(!word(&reconcile_check(1_u64, 1, 0).when));
    let control = control_check(4_u64);
    assert_eq!(control.reason, NativeExitReason::Control);
    assert!(word(&control.when) && !word(&control_check(0_u64).when));
    assert!(word(&activate_when(0_u64, 1)));
    assert!(!word(&activate_when(1_u64, 1)) && !word(&activate_when(0_u64, 0)));
    assert!(word(&promote_when(1_u64, 1)) && !word(&promote_when(2_u64, 1)));
    assert!(word(&poll_when(0_u64)) && !word(&poll_when(1_u64)));
    assert!(word(&link_when(12_u64, 8, 0)));
    assert!(!word(&link_when(12_u64, 8, 8)) && !word(&link_when(0_u64, 8, 0)));
    assert!(word(&serve_when(12_u64, 8, 8, 0)));
    assert!(!word(&serve_when(11_u64, 4, 8, 0)) && !word(&serve_when(0_u64, 8, 8, 0)));
    assert_eq!(lookup_index(0x10_0004, 0, 0xfff), 5);
    let target = 0x1234_5678_9abc_def0_u64;
    assert_eq!(
        computed(&lookup_expression(target, 77, 0xffff)),
        lookup_index(target, 77, 0xffff)
    );
    let slow = slow_failure_exits();
    assert_eq!((slow.expected, slow.known, slow.detail), (1, NativeExitReason::DataFault, 0));
    let exits = fp_failure_exits(3);
    assert_eq!((exits.expected, exits.known), (3, NativeExitReason::Architectural));
    assert_eq!(exits.detail, FP_TRAP_DETAIL);
    assert_eq!(propagate_flags(false, Some(false)), FlagStep::Missed);
    assert_eq!(propagate_flags(true, Some(false)), FlagStep::Pack);
}

#[test]
fn numbers_in_texts() {
    assert_eq!(decimal(0), "0");
    assert_eq!(decimal(u64::MAX), "18446744073709551615");
    assert_eq!(hex(0xbeef, 8), "0000beef");
}

fn words(kind: NativeExitReason, detail: u32) -> ExitWords<u64> {
    ExitWords { pc: 0x40, kind: kind.code(), detail, data_fault: None, fault_error: None }
}

#[test]
fn exits_are_decoded() {
    let exit = words(NativeExitReason::Dispatch, 0).exit().unwrap();
    assert_eq!(direct_exit_progress(&exit), 1);
    assert!(matches!(slice_step(exit, None, 0), (_, SliceStep::Resume)));
    let breakpoint = words(NativeExitReason::Architectural, 0x0200_0007).exit().unwrap();
    let (_, SliceStep::Stop(stop)) = slice_step(breakpoint, None, 0) else {
        panic!("a breakpoint stops");
    };
    assert_eq!(
        stop,
        CpuExit::ArchitecturalException {
            pc: 0x40,
            kind: ExceptionKind::Breakpoint,
            syndrome: 7,
        }
    );
    let _ = reports_registers(&stop);
    assert!(words(NativeExitReason::NoExit, 0).exit().is_err());
    let fault = ExitWords { data_fault: Some(5), ..words(NativeExitReason::DataFault, 0) };
    assert!(matches!(fault.exit(), Ok(DirectExit::DataFault { fault: 5, .. })));
}

fn bound(backend: MemoryBackend) -> BoundMemory {
    BoundMemory { address_space: 1, end_exclusive: 0x1000, backend, direct: None }
}

fn rounds(backend: MemoryBackend) -> Rounds {
    Rounds::begin(bound(backend), backend, None, true, 0x9000).unwrap()
}

#[test]
fn checked_rounds_run_without_a_lease() {
    let entry = EntryPoint { entry: 0x100, invalidation_cursor: 7 };
    let mut rounds = rounds(MemoryBackend::Checked);
    assert!(matches!(rounds.start::<u64>(0x40, 0), RoundAction::FindEntry { pc: 0x40 }));
    assert!(matches!(rounds.found::<u64>(Ok(entry)), RoundAction::Invoke { entry: e } if e == entry));
    assert!(!rounds.leased);
    let reconcile = words(NativeExitReason::Reconcile, 0);
    assert!(matches!(rounds.exited(Ok(reconcile)), RoundAction::Reconcile));
    assert!(matches!(rounds.reconciled::<u64>(), RoundAction::StartOver));
    assert_eq!(rounds.state, RoundState::Start);
    let RoundAction::Return { exit } = rounds.start::<u64>(0x9000, 3) else {
        panic!("the guest has returned");
    };
    assert_eq!(exit, DirectExit::LoaderReturn { pc: 0x9000, result_code: 3, progress: 0 });
}

#[test]
fn direct_rounds_run_under_a_lease() {
    let entry = EntryPoint { entry: 0x100, invalidation_cursor: 7 };
    let mut first = rounds(MemoryBackend::LinuxDirect);
    assert!(matches!(first.start::<u64>(0x40, 0), RoundAction::FindEntry { .. }));
    assert!(matches!(first.found::<u64>(Ok(entry)), RoundAction::AcquireLease));
    assert!(!first.leased);
    let mut refused = first;
    assert!(matches!(refused.granted::<u64>(None), RoundAction::Fail { .. }));
    let mut foreign = first;
    let RoundAction::Fail { error } = foreign.granted::<u64>(Some(false)) else {
        panic!("a lease of other memory is refused");
    };
    assert_eq!(error.detail, "LinuxDirect memory acquired a lease from another owner");
    assert!(matches!(first.granted::<u64>(Some(true)), RoundAction::FindPublished { pc: 0x40 }));
    assert!(first.leased);
    let mut gone = first;
    assert!(matches!(gone.checked::<u64>(Ok(None)), RoundAction::StartOver));
    assert!(!gone.leased);
    assert!(matches!(first.checked::<u64>(Ok(Some(entry))), RoundAction::Invoke { .. }));
    assert!(first.leased);
    let control = words(NativeExitReason::Control, 0);
    assert!(matches!(
        first.exited(Ok(control)),
        RoundAction::Return { exit: DirectExit::Control { pc: 0x40, progress: 0 } }
    ));
    assert!(!first.leased);
    assert_eq!(first.state, RoundState::Over);
    let memory = bound(MemoryBackend::LinuxDirect);
    let error = Rounds::begin(memory, MemoryBackend::Checked, None, true, 0).unwrap_err();
    assert_eq!(error.kind, DirectJitErrorKind::InvalidGuestCode);
    let error = Rounds::begin(memory, MemoryBackend::LinuxDirect, None, false, 0).unwrap_err();
    assert_eq!(error.kind, DirectJitErrorKind::Internal);
}

#[test]
fn slices_count_and_report() {
    let mut slice = Slice::begin(&bound(MemoryBackend::Checked), false).unwrap();
    assert!(Slice::begin(&bound(MemoryBackend::LinuxDirect), false).is_err());
    assert!(matches!(slice.look::<u64>(0), SliceAction::Run));
    let dispatch = words(NativeExitReason::Dispatch, 0).exit();
    assert!(matches!(slice.ran(dispatch, None), SliceAction::Look));
    assert_eq!(slice.executed, 1);
    let SliceAction::Report { report } = slice.look::<u64>(4) else {
        panic!("an interrupt stops the slice");
    };
    assert_eq!((report.progress, report.registers), (1, true));
    assert_eq!(report.stop, CpuExit::PendingEvent { mask: 4 });
    let control = words(NativeExitReason::Control, 0).exit();
    assert!(matches!(slice.ran(control, Some(false)), SliceAction::Look));
    let fault = ExitWords { data_fault: Some(5), ..words(NativeExitReason::DataFault, 0) };
    let SliceAction::Report { report } = slice.ran(fault.exit(), None) else {
        panic!("a data fault stops the slice");
    };
    assert_eq!((report.progress, report.registers), (2, false));
    let SliceAction::Fail { fault } = slice.ran::<u64>(Err(DirectJitError::internal("broken")), None)
    else {
        panic!("an error fails the slice");
    };
    assert_eq!((fault.kind, fault.progress), (CpuFaultKind::Internal, 2));
}

#[test]
fn builds_publish_only_current_code() {
    let entry = EntryPoint { entry: 0x100, invalidation_cursor: 9 };
    let region = published(0, 7);
    let none = summarize_invalidations(&vec![], 1);
    let reached = summarize_invalidations(
        &vec![InvalidationKind::ExecutableContent { first: 7, second: None }],
        1,
    );
    let claimed = EntryNode { generation: 1, state: EntryState::CompilingLcq, entry: 0 };
    let (mut build, action) = Build::first(1, 3);
    assert!(matches!(action, BuildAction::Discover));
    assert!(matches!(build.discovered(Ok(()), claimed), BuildAction::Compile));
    assert!(matches!(build.compiled(Ok(())), BuildAction::Settle));
    let again = build.settled(Ok(()), claimed, false, &reached, &region, 5);
    assert!(matches!(again, BuildAction::Discover));
    assert_eq!(build.cursor, 5);
    build.discovered(Ok(()), claimed);
    build.compiled(Ok(()));
    let mut stopped = build;
    assert!(matches!(
        stopped.settled(Ok(()), claimed, true, &none, &region, 6),
        BuildAction::Fail { error } if error.kind == DirectJitErrorKind::Shutdown
    ));
    let mut lost = build;
    let other = EntryNode { generation: 2, ..claimed };
    assert!(matches!(
        lost.settled(Ok(()), other, false, &none, &region, 6),
        BuildAction::LookAgain
    ));
    let decided = build.settled(Ok(()), claimed, false, &none, &region, 6);
    assert!(matches!(decided, BuildAction::PublishFaults));
    assert!(matches!(build.faults_published(Ok(())), BuildAction::Publish));
    let mut refused = build;
    assert!(matches!(refused.published(false, entry), BuildAction::Fail { .. }));
    assert!(matches!(build.published(true, entry), BuildAction::Enter { entry: e } if e == entry));
    assert_eq!(build.state, BuildState::Over);

    let queued = EntryNode { generation: 1, state: EntryState::HcqQueued, entry: 5 };
    let (_, action) = Build::better(request(0), claimed);
    assert!(matches!(action, BuildAction::Finish));
    let (mut better, action) = Build::better(request(0), queued);
    assert!(matches!(action, BuildAction::Discover));
    let mut vanished = better;
    let error = DirectJitError::invalid("unmapped");
    assert!(matches!(vanished.discovered(Err(error), claimed), BuildAction::Finish));
    let mut failed = better;
    let error = DirectJitError::invalid("unmapped");
    assert!(matches!(failed.discovered(Err(error), queued), BuildAction::Fail { .. }));
    better.discovered(Ok(()), queued);
    better.compiled(Ok(()));
    let stale = better.settled(Ok(()), queued, false, &reached, &region, 6);
    assert!(matches!(stale, BuildAction::RestoreLcq));
    assert!(matches!(
        worker_step(DirectJitError::capacity("full")),
        WorkerStep::CloseQueue
    ));
    assert!(matches!(
        worker_step(DirectJitError::internal("broken")),
        WorkerStep::FailProcess { .. }
    ));
    let kept = first_failure(Some(DirectJitError::internal("one")), DirectJitError::internal("two"));
    assert_eq!(kept.detail, "one");
}

#[test]
fn settled_code_is_counted_before_memory_is_read() {
    let mut code = CodeState::new(100);
    code.regions.insert(published(0, 7));
    let records = vec![InvalidationKind::ExecutableContent { first: 7, second: None }];
    code.count(60).unwrap();
    let reconciled = code.regions.reconcile(Ok((4, records)), 1).unwrap_or_else(|_| panic!("read"));
    assert_eq!(reconciled.retired, vec![key(0)]);
    assert_eq!((code.native_bytes, code.regions.cursor), (60, 4));
    let error = code.count(60).unwrap_err();
    assert_eq!(error.detail, "direct JIT code arena exhausted: used=120 limit=100");
    assert_eq!((code.native_bytes, code.regions.cursor), (120, 4));
    let error = code.count(usize::MAX).unwrap_err();
    assert_eq!(error.detail, "direct JIT code size overflows");
    assert_eq!(code.native_bytes, 120);
}

#[test]
fn faults_are_located() {
    let arena = FaultArena { address_space: 1, base: 0x1000, size: 0x1000 };
    let located = locate_fault(&arena, &access(4), 0x1010).unwrap();
    assert_eq!((located.address, located.size), (0x10, MemoryAccessSize::Doubleword));
    assert!(locate_fault(&arena, &access(4), 0x2000).is_none());
    assert_eq!(direct_access_size(16), Some(MemoryAccessSize::Quadword));
    assert_eq!(direct_access_size(3), None);
    assert!(matches!(
        settle_fault::<u64>(Resolution::Retry, 4, 0),
        FaultOutcome::Retry
    ));
    let FaultOutcome::Escape(words) = settle_fault(Resolution::Fault(9_u64), 4, 0) else {
        panic!("a fault escapes");
    };
    assert_eq!((words.pc, words.data_fault), (4, Some(9)));
    assert!(native_fault_metadata(0x100, 16, &vec![]).unwrap().is_none());
}

fn key(start: u64) -> RegionKey {
    RegionKey { address_space: 1, start, profile: 0 }
}

fn request(start: u64) -> HcqRequest {
    HcqRequest { key: key(start), generation: 1, invalidation_cursor: 0 }
}

#[test]
fn the_newest_request_is_compiled_first() {
    assert_eq!(hcq_worker_count(1), 1);
    assert_eq!(hcq_worker_count(12), 2);
    assert_eq!(hcq_worker_count(64), 4);
    let mut scheduler = HcqScheduler::new();
    scheduler.configure(1);
    assert!(scheduler.push(request(0)));
    assert!(scheduler.push(request(4)));
    assert!(matches!(scheduler.pop(), NextRequest::Compile(next) if next.key == key(4)));
    scheduler.configure(0);
    assert_eq!((scheduler.capacity, scheduler.pending.len()), (0, 1));
    scheduler.configure(1);
    assert_eq!(
        request_hcq(&mut scheduler, key(8), Some(1), 0),
        PromotionStep::Queued
    );
    assert_eq!(scheduler.close().len(), 2);
    scheduler.shut_down();
    assert!(matches!(scheduler.pop(), NextRequest::Stop));
}

fn published(start: u64, page: u64) -> PublishedRegion {
    PublishedRegion {
        key: key(start),
        pages: vec![page],
        spans: vec![CodePageSpan { start, end_exclusive: Some(start + 4096) }],
    }
}

#[test]
fn changes_retire_what_they_reach() {
    assert!(mapping_range_overlaps(
        CodePageSpan { start: 0x1000, end_exclusive: Some(0x2000) },
        0x1fff,
        1
    ));
    assert!(!mapping_range_overlaps(
        CodePageSpan { start: 0x1000, end_exclusive: Some(0x2000) },
        0x2000,
        1
    ));
    let mut regions =
        Regions { live: vec![], retired: vec![], dependents: vec![], cursor: 0 };
    assert!(!regions.insert(published(0, 7)));
    assert!(!regions.insert(published(0x4000, 8)));
    let records = vec![InvalidationKind::ExecutableContent { first: 7, second: None }];
    let summary = summarize_invalidations(&records, 1);
    assert!(!summary.all);
    let reconciled = regions.reconcile(Ok((5, records)), 1).unwrap_or_else(|_| panic!("read"));
    assert_eq!(reconciled.retired, vec![key(0)]);
    assert_eq!((regions.live.len(), regions.cursor), (1, 5));
    let unreadable = ReportFailure::Unreadable { detail: "gone".to_string() };
    let error = regions.reconcile(Err(unreadable), 1).err().unwrap();
    assert_eq!(error.detail, "direct JIT could not consume memory invalidations: gone");
    assert_eq!((regions.live.len(), regions.cursor), (1, 5));
    let lost = ReportFailure::HistoryLost { latest: 9 };
    let reconciled = regions.reconcile(Err(lost), 1).unwrap_or_else(|_| panic!("lost"));
    assert_eq!(reconciled.retired, vec![key(0x4000)]);
    assert_eq!(regions.cursor, 9);
}

#[test]
fn a_dependence_is_noted_once() {
    let mut regions = Regions { live: vec![], retired: vec![], dependents: vec![], cursor: 0 };
    regions.depend(&published(0, 7));
    assert!(regions.live.is_empty());
    assert!(!regions.insert(published(0, 7)));
    assert!(regions.insert(published(0, 8)));
    assert_eq!(regions.dependents, vec![(7, key(0)), (8, key(0))]);
    assert_eq!(regions.retired.len(), 1);
}

#[test]
fn changes_are_looked_at_again_before_publication() {
    let records = vec![InvalidationKind::ExecutableContent { first: 7, second: None }];
    let summary = invalidations_since(Ok((5, records)), 1).unwrap_or_else(|_| panic!("read"));
    assert!(summary.affects_published(&published(0, 7)));
    assert!(!summary.affects_published(&published(0, 8)));
    let lost = invalidations_since(Err(ReportFailure::HistoryLost { latest: 9 }), 1);
    assert!(lost.unwrap_or_else(|_| panic!("lost")).all);
    let unreadable = ReportFailure::Unreadable { detail: "gone".to_string() };
    let error = invalidations_since(Err(unreadable), 1).err().unwrap();
    assert_eq!(error.detail, "direct JIT could not revalidate compiled code: gone");
}

#[test]
fn an_empty_span_overlaps_what_reaches_around_it() {
    let span = CodePageSpan { start: 16, end_exclusive: Some(16) };
    assert!(mapping_range_overlaps(span, 8, 16));
    assert!(!mapping_range_overlaps(span, 16, 8));
    assert!(!mapping_range_overlaps(span, 8, 0));
    let last = CodePageSpan { start: u64::MAX - 1, end_exclusive: None };
    assert!(mapping_range_overlaps(last, u64::MAX, u64::MAX));
}

#[test]
fn a_published_entry_is_looked_up_after_failures() {
    let failure = Some(DirectJitError::internal("broken"));
    assert_eq!(published_entry(None, true, &failure).unwrap_err().detail, "broken");
    assert_eq!(
        published_entry(Some(8), true, &None).unwrap_err().kind,
        DirectJitErrorKind::Shutdown
    );
    assert_eq!(published_entry(Some(8), false, &None).unwrap(), Some(8));
    assert_eq!(published_entry(Some(0), false, &None).unwrap(), None);
    assert_eq!(published_entry(None, false, &None).unwrap(), None);
}

#[test]
fn an_unsupported_instruction_is_named() {
    let known = unsupported_exit(4, Ok((7, GuestDecode::Known { known: "fjcvtzs" }))).unwrap();
    assert_eq!((known.pc, known.encoding, known.known), (4, 7, "fjcvtzs"));
    let fetch: Result<(u32, GuestDecode<u8>), String> = Err("unmapped".to_string());
    assert_eq!(unsupported_exit(4, fetch).unwrap_err().detail, "unmapped");
    let unallocated = GuestDecode::<u8>::Unallocated { reason: "no such opcode".to_string() };
    assert_eq!(
        unsupported_exit(4, Ok((7, unallocated))).unwrap_err().detail,
        "native unsupported exit decoded as unallocated: no such opcode"
    );
    let reserved =
        GuestDecode::<u8>::Reserved { name: "udf".to_string(), reason: "permanent".to_string() };
    let error = unsupported_exit(4, Ok((7, reserved))).unwrap_err();
    assert_eq!(error.detail, "native unsupported exit decoded as reserved udf: permanent");
    assert_eq!(error.kind, DirectJitErrorKind::Internal);
}

#[test]
fn memory_is_kept_by_its_owner() {
    check_owner(1, 1).unwrap();
    assert_eq!(
        check_owner(1, 2).unwrap_err().detail,
        "JIT memory owner differs from the bound memory"
    );
}

#[test]
fn stale_code_is_not_published() {
    let node = EntryNode { generation: 1, state: EntryState::CompilingLcq, entry: 0 };
    let none = summarize_invalidations(&vec![], 1);
    let reached = summarize_invalidations(
        &vec![InvalidationKind::ExecutableContent { first: 7, second: None }],
        1,
    );
    let region = published(0, 7);
    assert_eq!(decide_lcq(node, 1, false, &none, &region), PublishStep::Publish);
    assert_eq!(decide_lcq(node, 2, false, &none, &region), PublishStep::Superseded);
    assert_eq!(decide_lcq(node, 1, false, &reached, &region), PublishStep::OutOfDate);
    assert_eq!(decide_lcq(node, 1, true, &none, &region), PublishStep::Shutdown);
    let queued = EntryNode { generation: 1, state: EntryState::HcqQueued, entry: 5 };
    assert_eq!(
        decide_hcq(queued, &request(0), false, &none, &region),
        PublishStep::Publish
    );
    assert_eq!(entry_step(queued, false, &None).unwrap(), EntryStep::Enter(5));
    assert_eq!(entry_step(node, false, &None).unwrap(), EntryStep::Wait);
    assert_eq!(
        entry_step(node, true, &None).unwrap_err().kind,
        DirectJitErrorKind::Shutdown
    );
    assert_eq!(account_native_bytes(4, 4, 16).0, 8);
    assert_eq!(
        account_native_bytes(10, 7, 16).1.unwrap_err().detail,
        "direct JIT code arena exhausted: used=17 limit=16"
    );
}

#[test]
fn memory_is_bound_once() {
    let bound = BoundMemory {
        address_space: 1,
        end_exclusive: 0x1000,
        backend: MemoryBackend::Checked,
        direct: None,
    };
    let mut state = MemoryState { bound: None, owner: None };
    state.bind(bound, None).unwrap();
    state.bind(bound, None).unwrap();
    let other = BoundMemory { end_exclusive: 0x2000, ..bound };
    assert!(state.bind(other, None).is_err());
    assert_eq!(state.backend(1), bound);
    assert!(check_binding(1, 2, 0x1000, MemoryBackend::Checked, None).is_err());
    let view = DirectView { base: 0x10_0000, address_space_size: 0x1000 };
    assert!(check_binding(1, 1, 0x1000, MemoryBackend::LinuxDirect, Some(view)).is_ok());
    assert!(check_binding(1, 1, 0x1000, MemoryBackend::LinuxDirect, None).is_err());
    assert!(check_slice(&bound, true).is_ok());
    let compiled = EntryPoint { entry: 1, invalidation_cursor: 0 };
    assert_eq!(choose_entry(&bound, compiled, None), Some(compiled));
}

#[test]
fn errors_become_faults() {
    let fault = DirectJitError::capacity("full").into_fault(3);
    assert_eq!((fault.kind, fault.progress), (CpuFaultKind::Unavailable, 3));
    assert_eq!(fault.message, "full");
    assert_eq!(DirectJitError::shutdown().message(), "direct JIT process is shut down");
}

#[test]
fn vector_instructions_are_planned_in_a_region() {
    let region = Region {
        start: 0,
        blocks: vec![block(
            0,
            vec![A64Instruction::FpSimd(FpSimdInstruction {
                kind: FpSimdKind::CountBits,
                operands: FpSimdOperands {
                    rd: 1,
                    rn: 2,
                    rm: 0,
                    ra: 0,
                    rt2: 0,
                    opc: 0,
                    size: 0,
                    cmode: 0,
                    mode: 0,
                    option: 0,
                    condition: 0,
                    nzcv_immediate: 0,
                    immediate_4: 0,
                    immediate_5: 0,
                    immediate_7: 0,
                    immediate_8: 0,
                    immediate_9: 0,
                    immediate_12: 0,
                    fp_immediate_8: 0,
                    shift_immediate: 0,
                    fp_element_lane: 0,
                    operation_bit: false,
                    vector_128: true,
                    load: false,
                    scaled: false,
                    subtract: false,
                    compare_with_zero: false,
                    signaling_compare: false,
                    fixed_point_fraction_bits: None,
                    float_add_operation: None,
                    float_multiply_operation: None,
                    float_fused_multiply_operation: None,
                    float_round_operation: None,
                    float_to_integer_rounding: None,
                    float_conversion: None,
                    bitwise_operation: None,
                    integer_comparison: None,
                    pairwise_operation: None,
                    permute_operation: None,
                    access_size: None,
                    structure: None,
                },
            })],
            BlockTerminator::FpModeChange { continuation: 4 },
        )],
    };
    let plan = region.translate(HOST, &vec![], &vec![], false, None).unwrap();
    assert!(matches!(plan.blocks[0].routes[0], Route::FpSimd(_)));
    assert_eq!(
        plan.blocks[0].ending,
        Ending::Exit { reason: NativeExitReason::Dispatch, detail: 0, pc: 4 }
    );
    assert_eq!(plan.entry_loads[0].register, Register::Vector(2));
}

#[test]
fn regions_are_tested_before_they_are_planned() {
    let good = Region {
        start: 0,
        blocks: vec![block(0, vec![], BlockTerminator::Direct { target: 4 })],
    };
    assert!(good.is_ready());
    let elsewhere = Region { start: 8, ..good };
    assert!(!elsewhere.is_ready());
    let twice = Region {
        start: 0,
        blocks: vec![
            block(0, vec![], BlockTerminator::Direct { target: 4 }),
            block(0, vec![], BlockTerminator::Direct { target: 4 }),
        ],
    };
    assert!(!twice.is_ready());
    let wide = IntegerInstruction {
        kind: IntegerKind::MoveWide,
        rd: 32,
        rn: 0,
        rm: 0,
        ra: 0,
        opcode_3: 0,
        condition: 0,
        set_flags: false,
        subtract: false,
    };
    let unknown = Region {
        start: 0,
        blocks: vec![block(
            0,
            vec![A64Instruction::Integer(wide)],
            BlockTerminator::Direct { target: 4 },
        )],
    };
    assert!(!unknown.is_ready());
}
