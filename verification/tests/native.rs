use nixe_cpu_jit::abi::contract::{EntryContract, ExitStateMap, NzcvLocation};
use nixe_cpu_jit::abi::dispatch::ExitSiteKey;
use nixe_cpu_jit::abi::flags::LazyFlags;
use nixe_cpu_jit::abi::identity::CodeVersion;
use nixe_cpu_jit::abi::location::{GuestValue, RegisterClass, ValueBinding, ValueLocation};
use nixe_cpu_jit::abi::HostAbi;
use nixe_cpu_jit::analysis::{StateSet, C};
use nixe_cpu_jit::fp_env::{
    fpsr_guest_status, guest_fpcr, guest_mxcsr, mxcsr_guest_status, split_mxcsr, GuestFp,
    HostFpState, UnsupportedFpControl,
};
use nixe_cpu_jit::fp_policy::native_fpcr_supported;
use nixe_cpu_jit::native::schedule::schedule;
use nixe_cpu_jit::native::store::ValueCopy;
use nixe_cpu_jit::native::transfer::{emit_fast_transfer, FlagStep, TransferError};

const HOST: HostAbi = HostAbi::X86_64;

fn register(index: u8) -> ValueLocation {
    ValueLocation::Register { class: RegisterClass::Integer, index }
}

fn run(copies: &[ValueCopy], registers: &mut [u64; 16], frame: &mut Vec<(u32, u64)>) {
    for copy in copies {
        let value = match copy.source {
            ValueLocation::Register { index, .. } => registers[index as usize],
            ValueLocation::Spill { offset, .. } => {
                frame.iter().rev().find(|(at, _)| *at == offset).unwrap().1
            }
            ValueLocation::Constant(value) => value as u64,
        };
        match copy.destination {
            ValueLocation::Register { index, .. } => registers[index as usize] = value,
            ValueLocation::Spill { offset, .. } => frame.push((offset, value)),
            ValueLocation::Constant(_) => panic!("a constant is no destination"),
        }
    }
}

#[test]
fn parallel_moves_break_cycles() {
    let moves = vec![
        ValueCopy { source: register(0), destination: register(1), bytes: 8 },
        ValueCopy { source: register(1), destination: register(2), bytes: 8 },
        ValueCopy { source: register(2), destination: register(0), bytes: 8 },
        ValueCopy { source: ValueLocation::Constant(42), destination: register(3), bytes: 8 },
    ];
    let copies = schedule(HOST, &moves).unwrap();
    let mut registers = [0; 16];
    registers[0] = 10;
    registers[1] = 11;
    registers[2] = 12;
    run(&copies, &mut registers, &mut Vec::new());
    assert_eq!(registers[..4], [12, 10, 11, 42]);
}

#[test]
fn moves_to_themselves_cost_nothing() {
    let moves = vec![ValueCopy { source: register(0), destination: register(0), bytes: 8 }];
    assert_eq!(schedule(HOST, &moves).unwrap().len(), 0);
}

fn exit(bindings: Vec<ValueBinding>, live: StateSet, nzcv: NzcvLocation) -> ExitStateMap {
    ExitStateMap {
        site: ExitSiteKey { source: CodeVersion::new(1).unwrap(), state_map: 0 },
        abi: HOST,
        live,
        dirty_live: StateSet::default(),
        bindings,
        nzcv,
        host_fpsr_pending: false,
    }
}

fn bound(index: u8, location: ValueLocation) -> ValueBinding {
    ValueBinding { value: GuestValue::General(index), location }
}

#[test]
fn fast_edges_move_what_the_target_reads() {
    let mut live = StateSet::default();
    live.integer.x[0] = true;
    let source = exit(vec![bound(0, register(1))], live, NzcvLocation::Canonical);
    let target = EntryContract {
        live_in: live,
        abi: HOST,
        bindings: vec![bound(0, register(2))],
        nzcv: NzcvLocation::Canonical,
    };
    let plan = emit_fast_transfer(&source, &target).unwrap();
    assert_eq!(plan.flags, FlagStep::Keep);
    assert_eq!(plan.copies.len(), 1);
    assert_eq!(plan.copies[0].destination, register(2));
    let mut more = live;
    more.integer.x[1] = true;
    let wants_more = EntryContract {
        live_in: more,
        abi: HOST,
        bindings: vec![bound(0, register(2)), bound(1, register(3))],
        nzcv: NzcvLocation::Canonical,
    };
    assert!(matches!(
        emit_fast_transfer(&source, &wants_more),
        Err(TransferError::MissingValue(GuestValue::General(1)))
    ));
    let elsewhere = EntryContract {
        live_in: live,
        abi: HostAbi::Aarch64,
        bindings: vec![bound(0, register(2))],
        nzcv: NzcvLocation::Canonical,
    };
    assert!(matches!(
        emit_fast_transfer(&source, &elsewhere),
        Err(TransferError::DifferentHostAbis)
    ));
}

#[test]
fn host_flags_are_converted() {
    let live = StateSet { nzcv: C, ..StateSet::default() };
    let source = exit(vec![], live, NzcvLocation::Host { carry_inverted: true });
    let target = EntryContract {
        live_in: live,
        abi: HOST,
        bindings: vec![],
        nzcv: NzcvLocation::Host { carry_inverted: false },
    };
    let plan = emit_fast_transfer(&source, &target).unwrap();
    assert_eq!(plan.flags, FlagStep::InvertHostCarry);
    let nothing = exit(vec![], StateSet::default(), NzcvLocation::Canonical);
    assert!(matches!(
        emit_fast_transfer(&nothing, &target),
        Err(TransferError::MissingFlags)
    ));
}

#[test]
fn guest_status_outlives_an_invocation() {
    let mut fp = GuestFp { host: HostFpState::default(), fpcr: 0, fpsr: 1 << 27 };
    fp.begin_fp(0x1f80, 0x20);
    assert_eq!(fp.ensure_fp(), Ok(true));
    assert_eq!(fp.ensure_fp(), Ok(false));
    assert_eq!(fp.suspend_fp(2), Some((0x1f80, 0x20)));
    assert_eq!(fp.fpsr, (1 << 27) | 2);
    assert_eq!(fp.resume_fp(), Ok(true));
    assert_eq!(fp.finish_fp(1), Some((0x1f80, 0x20)));
    assert_eq!(fp.fpsr, (1 << 27) | 3);
    assert_eq!(fp.host.saved, 0);
}

#[test]
fn unusual_control_words_stay_off_the_host() {
    let mut fp = GuestFp { host: HostFpState::default(), fpcr: 1 << 8, fpsr: 0 };
    fp.begin_fp(0, 0);
    assert_eq!(fp.ensure_fp(), Err(UnsupportedFpControl(1 << 8)));
    assert!(native_fpcr_supported(3 << 22));
    assert!(!native_fpcr_supported(1 << 26));
}

#[test]
fn host_control_words_are_translated() {
    assert_eq!(guest_mxcsr(0x1f80, 0), 0x1f80);
    assert_eq!(guest_mxcsr(0x1f80, 1 << 22), 0x5f80);
    assert_eq!(guest_mxcsr(0x1f80, 2 << 22), 0x3f80);
    assert_eq!(guest_mxcsr(0x1f80, 3 << 22), 0x7f80);
    assert_eq!(guest_mxcsr(0x1f80, 1 << 24), 0x9fc0);
    assert_eq!(mxcsr_guest_status(0x3f), 0x9f);
    assert_eq!(split_mxcsr(0x1fa1), (0x1f80, 0x21));
    assert_eq!(guest_fpcr(3 << 22), 3 << 22);
    assert_eq!(fpsr_guest_status(0x9f), 0x9f);
}

#[test]
fn contracts_that_match_need_nothing() {
    let mut live = StateSet::default();
    live.integer.x[0] = true;
    live.nzcv = 0b1010;
    let flags = NzcvLocation::Packed(register(3));
    let source = exit(vec![bound(0, register(1))], live, flags.clone());
    let target = EntryContract {
        live_in: live,
        abi: HOST,
        bindings: vec![bound(0, register(1))],
        nzcv: flags,
    };
    let plan = emit_fast_transfer(&source, &target).unwrap();
    assert_eq!(plan.flags, FlagStep::Keep);
    assert!(plan.copies.is_empty());
    assert!(plan.install_host.is_none());
}

#[test]
fn copies_of_contracts_are_equal() {
    let mut live = StateSet::default();
    live.integer.x[0] = true;
    let deferred = NzcvLocation::Deferred(LazyFlags::Conditional {
        predicate: register(1),
        when_true: Box::new(LazyFlags::Logical { result: register(2), width: 64 }),
        when_false: 4,
    });
    let source = exit(vec![bound(0, register(1))], live, deferred);
    assert_eq!(source.clone(), source);
    let target = EntryContract {
        live_in: live,
        abi: HOST,
        bindings: vec![bound(0, register(2))],
        nzcv: NzcvLocation::Canonical,
    };
    assert_eq!(target.clone(), target);
}
