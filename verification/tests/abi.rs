use nixe_cpu_jit::abi::budget::{BudgetError, PollBudget, PollOutcome};
use nixe_cpu_jit::abi::contract::{EntryContract, ExitStateMap, NzcvLocation};
use nixe_cpu_jit::abi::dispatch::{
    DispatchPayload, ExitSiteKey, HcqEntry, NonZeroUsize, PublishedEntry,
};
use nixe_cpu_jit::abi::exit::NativeExitReason;
use nixe_cpu_jit::abi::flags::LazyFlags;
use nixe_cpu_jit::abi::identity::{
    CheckedCounter, CodeUnitId, CodeVersion, FamilyVersion, HcqFamilyId, IdentityExhausted,
    ReachabilityVersion,
};
use nixe_cpu_jit::abi::keys::{BlockKey, FpSpecialization, InstructionKey, ProcessCpuContext};
use nixe_cpu_jit::abi::location::{
    locations_overlap, GuestValue, RegisterClass, ValueBinding, ValueLocation,
};
use nixe_cpu_jit::abi::{HostAbi, TRANSFER_BYTES};
use nixe_cpu_jit::analysis::{StateSet, C, NZCV, Z};

#[test]
fn identities_never_wrap_or_reuse_zero() {
    let mut counter = CheckedCounter::<CodeVersion>::default();
    assert_eq!(counter.next_id().unwrap().get(), 1);
    let mut counter = CheckedCounter::<CodeVersion>::resume_after(u64::MAX - 1);
    assert_eq!(counter.next_id().unwrap().get(), u64::MAX);
    assert_eq!(counter.next_id(), Err(IdentityExhausted("CodeVersion")));
    assert_eq!(counter.next_id(), Err(IdentityExhausted("CodeVersion")));
    assert!(CodeVersion::new(0).is_none());
}

#[test]
fn identities_come_in_whole_batches() {
    let mut counter = CheckedCounter::<CodeVersion>::resume_after(u64::MAX - 2);
    let ids = counter.take_ids(2).unwrap();
    assert_eq!((ids[0].get(), ids[1].get()), (u64::MAX - 1, u64::MAX));
    assert!(counter.take_ids(1).is_err());
    assert_eq!(
        IdentityExhausted("CodeVersion").message(),
        "JIT CodeVersion identity space exhausted"
    );
}

#[test]
fn keys_distinguish_semantics_but_not_mapping_generations() {
    let cpu = ProcessCpuContext { address_space: 1, profile: 1, platform: 1 };
    let key = BlockKey::new(cpu, 0x1000, FpSpecialization::Dynamic).unwrap();
    assert_ne!(key, BlockKey { fp: FpSpecialization::Exact(0), ..key });
    assert_ne!(key, BlockKey { profile: 17, ..key });
    assert_ne!(key, BlockKey { address_space: 2, ..key });
    assert!(key.at(0x1002).is_none());
    assert_ne!(InstructionKey::new(key), InstructionKey::new(key.at(0x1004).unwrap()));
    assert_eq!(InstructionKey::new(key).unwrap().block_key(), key);
}

#[test]
fn dispatch_preference_is_a_coherent_immutable_choice() {
    let lcq = PublishedEntry {
        unit: CodeUnitId::new(1).unwrap(),
        version: CodeVersion::new(1).unwrap(),
        canonical: NonZeroUsize::new(0x1000).unwrap(),
        fast: NonZeroUsize::new(0x1010).unwrap(),
    };
    let hcq = HcqEntry {
        entry: PublishedEntry {
            unit: CodeUnitId::new(2).unwrap(),
            version: CodeVersion::new(2).unwrap(),
            canonical: NonZeroUsize::new(0x2000).unwrap(),
            fast: NonZeroUsize::new(0x2010).unwrap(),
        },
        family: HcqFamilyId::new(1).unwrap(),
        family_version: FamilyVersion::new(1).unwrap(),
    };
    let reachability = ReachabilityVersion::new(1).unwrap();
    assert_eq!(DispatchPayload::new(reachability, None, None).preferred(), None);
    assert_eq!(
        DispatchPayload::new(reachability, Some(lcq), None).preferred(),
        Some(lcq)
    );
    let payload = DispatchPayload::new(reachability, Some(lcq), Some(hcq));
    assert_eq!(payload.preferred(), Some(hcq.entry));
    assert_eq!(payload.lcq(), Some(lcq));
    assert_eq!(payload.hcq(), Some(hcq));
    assert_eq!(payload.reachability(), reachability);
    assert!(NonZeroUsize::new(0).is_none());
}

#[test]
fn exit_reasons_are_read_back_from_the_frame() {
    assert_eq!(NativeExitReason::try_from(0), Ok(NativeExitReason::NoExit));
    assert_eq!(NativeExitReason::try_from(u32::MAX), Err(u32::MAX));
    for code in 0..10 {
        assert_eq!(NativeExitReason::try_from(code).unwrap().code(), code);
    }
    assert_eq!(NativeExitReason::try_from(10), Err(10));
}

#[test]
fn poll_budget_charges_overshoot_and_forced_transitions() {
    let mut budget = PollBudget::new(5, 30).unwrap();
    assert_eq!(
        budget.reconcile(-3, false).unwrap(),
        PollOutcome { sample: true, exhausted: false }
    );
    assert_eq!(budget.sample_remaining, 4093);
    assert_eq!(budget.slice_remaining, 22);
    assert_eq!(budget.armed_span, 22);
    assert!(budget.reconcile(-2, true).unwrap().exhausted);
    assert_eq!(budget.slice_remaining, -2);
    let mut budget = PollBudget::new(1, 10000).unwrap();
    assert!(!budget.reconcile(-8192, true).unwrap().sample);
    assert_eq!(budget.sample_remaining, 4096);
    assert_eq!(budget.slice_remaining, 1807);
    assert_eq!(PollBudget::new(1, 0).unwrap_err(), BudgetError::ExhaustedSlice);
}

#[test]
fn poll_budget_refuses_what_it_cannot_arm() {
    assert_eq!(PollBudget::new(0, 1).unwrap_err(), BudgetError::InvalidSample);
    let mut budget = PollBudget::new(5, 30).unwrap();
    assert_eq!(budget.reconcile(6, true).unwrap_err(), BudgetError::InvalidDeadline);
}

#[test]
fn physical_maps_reject_reserved_registers_missing_state_and_aliasing() {
    for abi in [HostAbi::X86_64, HostAbi::Aarch64] {
        let pins: &[u8] = if abi == HostAbi::X86_64 {
            &[4, 5, 11, 13, 14, 15]
        } else {
            &[16, 17, 18, 19, 20, 21, 29, 30, 31]
        };
        for &index in pins {
            assert!(
                !ValueLocation::Register { class: RegisterClass::Integer, index }.valid(abi, 8)
            );
        }
        assert!(!ValueLocation::Spill { offset: 2040, bytes: 8 }.valid(abi, 8));
        assert!(ValueLocation::Spill { offset: 16368, bytes: 16 }.valid(abi, 16));
        assert!(!ValueLocation::Spill { offset: 16384, bytes: 8 }.valid(abi, 8));
        let mut required = StateSet::default();
        required.integer.x[0] = true;
        let binding = ValueBinding {
            value: GuestValue::General(0),
            location: ValueLocation::Register { class: RegisterClass::Integer, index: 0 },
        };
        let mut entry = EntryContract {
            live_in: required,
            abi,
            bindings: vec![binding],
            nzcv: NzcvLocation::Canonical,
        };
        assert!(entry.validate().is_ok());
        entry.live_in.nzcv = NZCV;
        entry.nzcv = NzcvLocation::Packed(binding.location);
        assert_eq!(entry.validate(), Err("fast NZCV input overlaps another input"));
        entry.live_in.nzcv = 0;
        entry.nzcv = NzcvLocation::Canonical;
        entry.live_in.integer.x[1] = true;
        assert!(entry.validate().is_err());
        entry.bindings =
            vec![binding, ValueBinding { value: GuestValue::General(1), ..binding }];
        assert_eq!(entry.validate(), Err("distinct fast inputs overlap"));
    }
}

#[test]
fn spilled_values_overlap_by_their_bytes() {
    let low = ValueLocation::Spill { offset: 2048, bytes: 8 };
    let next = ValueLocation::Spill { offset: 2056, bytes: 8 };
    let wide = ValueLocation::Spill { offset: 2048, bytes: 16 };
    assert!(!locations_overlap(low, next));
    assert!(locations_overlap(wide, next));
    assert!(!locations_overlap(ValueLocation::Constant(1), ValueLocation::Constant(1)));
}

#[test]
fn exit_maps_preserve_lazy_flags_and_host_sticky_status() {
    let required = StateSet { nzcv: C, fpsr: true, ..StateSet::default() };
    let mut exit = ExitStateMap {
        site: ExitSiteKey { source: CodeVersion::new(3).unwrap(), state_map: 0 },
        abi: HostAbi::X86_64,
        live: required,
        dirty_live: required,
        bindings: vec![],
        nzcv: NzcvLocation::Canonical,
        host_fpsr_pending: true,
    };
    assert!(exit.validate().is_err());
    exit.nzcv = NzcvLocation::Deferred(LazyFlags::Subtract {
        lhs: ValueLocation::Constant(8),
        rhs: ValueLocation::Constant(3),
        result: ValueLocation::Constant(5),
        width: 64,
    });
    assert!(exit.validate().is_ok());
    exit.live.integer.x[7] = true;
    exit.bindings = vec![ValueBinding {
        value: GuestValue::General(7),
        location: ValueLocation::Constant(42),
    }];
    assert!(
        exit.validate().is_ok(),
        "clean live locations are needed by fast bridges too"
    );
    assert!(
        !exit.dirty_live.integer.x[7],
        "canonical exit must not store the clean value"
    );
    exit.nzcv = NzcvLocation::Host { carry_inverted: true };
    assert_eq!(exit.flags_to_preserve(NZCV), C);
    assert_eq!(exit.flags_to_preserve(Z), 0);
    exit.nzcv = NzcvLocation::Deferred(LazyFlags::Conditional {
        predicate: ValueLocation::Spill { offset: TRANSFER_BYTES, bytes: 1 },
        when_true: Box::new(LazyFlags::Logical {
            result: ValueLocation::Constant(0),
            width: 32,
        }),
        when_false: 15,
    });
    assert!(exit.validate().is_ok());
    assert_eq!(exit.flags_to_preserve(NZCV), 0);
    exit.nzcv = NzcvLocation::Packed(ValueLocation::Register {
        class: RegisterClass::Integer,
        index: 15,
    });
    assert!(exit.validate().is_err());
}
