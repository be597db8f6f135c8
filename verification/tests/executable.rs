use nixe_cpu_jit::abi::{HostAbi, ValueBinding, TRANSFER_BYTES};
use nixe_cpu_jit::executable::cache::{
    align, segment_size, AllocateStep, Allocation, Cache, CommitOutcome, CopyOutcome, DecommitStep,
    MetadataLease,
};
use nixe_cpu_jit::executable::output::{
    BackendCode, Boundary, Metadata, Output, RawRelocation, RawTarget, Relocation, Target, Trap,
};
use nixe_cpu_jit::executable::segment::{Segment, Span};
use nixe_cpu_jit::executable::usage::Usage;
use nixe_cpu_jit::executable::{
    Error, Reloc, Tier, HARD_BYTES, ISLAND_BYTES, LCQ_RESERVE, MIB, SEGMENTS, SEGMENT_BYTES,
    SOFT_BYTES, WINDOW_BYTES,
};

const BASE: usize = 0x10_0000_0000;

fn cache() -> Cache {
    Cache::new(BASE, 4096)
}

fn finish(cache: &mut Cache, step: AllocateStep) -> Result<Allocation, Error> {
    match step {
        AllocateStep::Done(allocation) => Ok(allocation),
        AllocateStep::Commit(pending) => cache.finish_commit(pending, CommitOutcome::Committed),
    }
}

fn allocate(
    cache: &mut Cache,
    size: usize,
    alignment: usize,
    tier: Tier,
) -> Result<Allocation, Error> {
    let step = cache.allocate(size, alignment, tier)?;
    finish(cache, step)
}

fn address(allocation: &Allocation) -> usize {
    BASE + allocation.segment * SEGMENT_BYTES + allocation.span.start
}

fn output(abi: HostAbi, bytes: Vec<u8>) -> Output {
    Output {
        bytes,
        alignment: 16,
        metadata: Metadata {
            abi,
            frame_extent: TRANSFER_BYTES,
            entries: vec![],
            states: vec![],
            faults: vec![],
            traps: vec![],
            relocations: vec![],
        },
    }
}

struct Installed {
    allocation: Allocation,
    lease: MetadataLease,
    bytes: Vec<u8>,
}

fn install(
    cache: &mut Cache,
    mut output: Output,
    tier: Tier,
    symbols: Vec<Option<usize>>,
) -> Result<Installed, Error> {
    let staged = cache.stage(output.bytes.len(), output.alignment, 128, tier)?;
    let lease = staged.lease;
    let allocation = match finish(cache, staged.step) {
        Ok(allocation) => allocation,
        Err(error) => {
            cache.release_metadata(lease);
            return Err(error);
        }
    };
    let at = address(&allocation);
    if let Err(error) = output.relocate(at, &symbols) {
        cache.abandon(allocation, lease);
        return Err(error);
    }
    let (allocation, lease) = cache.finish_copy(allocation, lease, CopyOutcome::Visible)?;
    Ok(Installed { allocation, lease, bytes: output.bytes })
}

fn remove(cache: &mut Cache, code: Installed) {
    cache.release(code.allocation);
    cache.release_metadata(code.lease);
}

fn sample(value: u8) -> Output {
    output(HostAbi::X86_64, vec![0xf3, 0x0f, 0x1e, 0xfa, 0xb8, value, 0, 0, 0, 0xc3])
}

fn decommit(cache: &mut Cache, segment: usize) -> Result<bool, Error> {
    match cache.decommit_empty(segment)? {
        DecommitStep::Busy => Ok(false),
        DecommitStep::Done => Ok(true),
        DecommitStep::Release => {
            cache.finish_decommit(segment, Ok(()))?;
            Ok(true)
        }
    }
}

#[test]
fn individual_spans_reuse_and_empty_segments_release_real_backing() {
    let mut cache = cache();
    let first = install(&mut cache, sample(1), Tier::Lcq, vec![]).unwrap();
    let place = address(&first.allocation);
    let generation = first.allocation.generation;
    let neighbor = install(&mut cache, sample(2), Tier::Lcq, vec![]).unwrap();
    assert!(!decommit(&mut cache, 0).unwrap());
    remove(&mut cache, first);
    let replacement = install(&mut cache, sample(3), Tier::Lcq, vec![]).unwrap();
    assert_eq!(address(&replacement.allocation), place);
    assert_eq!(replacement.bytes, sample(3).bytes);
    assert_eq!(neighbor.bytes, sample(2).bytes);
    remove(&mut cache, replacement);
    remove(&mut cache, neighbor);
    assert!(cache.usage().unwrap().committed > 0);
    assert!(decommit(&mut cache, 0).unwrap());
    assert_eq!(cache.usage().unwrap().committed, 0);
    let reused = install(&mut cache, sample(4), Tier::Lcq, vec![]).unwrap();
    assert_eq!(address(&reused.allocation), place);
    assert_ne!(reused.allocation.generation, generation);
    assert_eq!(reused.bytes, sample(4).bytes);
}

#[test]
fn best_fit_then_lowest_address_and_coalescing_match_policy() {
    let mut cache = cache();
    let a = allocate(&mut cache, 80, 16, Tier::Lcq).unwrap();
    let b = allocate(&mut cache, 16, 16, Tier::Lcq).unwrap();
    let c = allocate(&mut cache, 48, 16, Tier::Lcq).unwrap();
    let d = allocate(&mut cache, 16, 16, Tier::Lcq).unwrap();
    let e = allocate(&mut cache, 80, 16, Tier::Lcq).unwrap();
    let f = allocate(&mut cache, 16, 16, Tier::Lcq).unwrap();
    let (low, small) = (address(&a), address(&c));
    for span in [a, c, e] {
        cache.release(span);
    }
    let fit = allocate(&mut cache, 40, 16, Tier::Lcq).unwrap();
    assert_eq!(address(&fit), small);
    let tie = allocate(&mut cache, 60, 16, Tier::Lcq).unwrap();
    assert_eq!(address(&tie), low);
    for span in [b, d, f, fit, tie] {
        cache.release(span);
    }
    assert_eq!(
        (
            cache.segments[0].bump,
            cache.segments[0].free.len(),
            cache.segments[0].live
        ),
        (0, 0, 0)
    );
}

#[test]
fn alignment_padding_and_fragmentation_are_reusable() {
    let mut cache = cache();
    let a = allocate(&mut cache, 3, 1, Tier::Lcq).unwrap();
    let b = allocate(&mut cache, 19, 4096, Tier::Lcq).unwrap();
    assert_eq!(address(&b) % 4096, 0);
    let gap = allocate(&mut cache, 16, 16, Tier::Lcq).unwrap();
    assert!(address(&a) < address(&gap) && address(&gap) < address(&b));
    for span in [a, b, gap] {
        cache.release(span);
    }
    assert_eq!(cache.segments[0].bump, 0);
    assert!(allocate(&mut cache, 1, 3, Tier::Lcq).is_err());
    let mut malformed = sample(1);
    malformed.alignment = 3;
    assert!(install(&mut cache, malformed, Tier::Lcq, vec![]).is_err());
}

#[test]
fn tiers_do_not_share_live_segments_but_borrow_empty_ones() {
    let mut cache = cache();
    let lcq = allocate(&mut cache, 16, 16, Tier::Lcq).unwrap();
    let hcq = allocate(&mut cache, 16, 16, Tier::Hcq).unwrap();
    assert_ne!(lcq.segment, hcq.segment);
    let first_segment = lcq.segment;
    cache.release(lcq);
    cache.release(hcq);
    let borrowed = allocate(&mut cache, 16, 16, Tier::Hcq).unwrap();
    assert_eq!(borrowed.segment, first_segment);
}

#[test]
fn reservation_bounds_and_islands_exclude_unallocatable_bytes() {
    let mut cache = cache();
    assert_eq!(
        (SEGMENTS - 1) * SEGMENT_BYTES + segment_size(127),
        WINDOW_BYTES
    );
    assert_eq!(segment_size(127), 15 * MIB);
    let base = cache.executable_base();
    assert_eq!(cache.segment_for_pc(base - 1), None);
    assert_eq!(cache.segment_for_pc(base), Some(0));
    assert_eq!(cache.segment_for_pc(base + WINDOW_BYTES - 1), Some(127));
    assert_eq!(cache.segment_for_pc(base + WINDOW_BYTES), None);
    assert_eq!(cache.segment_for_pc(usize::MAX), None);
    let whole = allocate(&mut cache, SEGMENT_BYTES - ISLAND_BYTES, 16, Tier::Lcq).unwrap();
    let next = allocate(&mut cache, 16, 16, Tier::Lcq).unwrap();
    assert_eq!((whole.segment, next.segment), (0, 1));
    assert!(address(&whole) + whole.span.len <= base + SEGMENT_BYTES - ISLAND_BYTES);
    assert!(allocate(&mut cache, SEGMENT_BYTES, 16, Tier::Lcq).is_err());
}

#[test]
fn budget_charges_overlap_and_preserves_lcq_capacity() {
    let usage = Usage { committed: 600 * MIB, metadata: 8 * MIB };
    assert!(usage.check(1, Tier::Hcq).is_err());
    assert!(usage.check(LCQ_RESERVE, Tier::Lcq).is_ok());
    assert!(usage.check(LCQ_RESERVE + 1, Tier::Lcq).is_err());
    assert!(usage.needs_reclamation());
    assert!(Usage { committed: SOFT_BYTES, metadata: 0 }.check(1, Tier::Hcq).is_err());
    let mut cache = cache();
    let initial = cache.usage().unwrap();
    let old = cache.charge_metadata(1024, Tier::Lcq).unwrap();
    let new = cache.charge_metadata(2048, Tier::Lcq).unwrap();
    assert_eq!(cache.usage().unwrap().metadata, initial.metadata + 3072);
    cache.release_metadata(old);
    assert_eq!(cache.usage().unwrap().metadata, initial.metadata + 2048);
    cache.release_metadata(new);
    assert_eq!(cache.usage().unwrap(), initial);
}

#[test]
fn relocation_failure_returns_the_unpublished_span_and_metadata() {
    let mut cache = cache();
    let warmup = allocate(&mut cache, 16, 16, Tier::Lcq).unwrap();
    let place = address(&warmup);
    cache.release(warmup);
    let initial = cache.usage().unwrap();
    let mut bad = output(HostAbi::X86_64, vec![0; 16]);
    bad.metadata.relocations = vec![Relocation {
        offset: 0,
        kind: Reloc::Abs8,
        target: Target::User { namespace: 1, index: 2 },
        addend: 0,
    }];
    assert!(matches!(
        install(&mut cache, bad, Tier::Lcq, vec![None]),
        Err(Error::Relocation { .. })
    ));
    assert_eq!(cache.usage().unwrap(), initial);
    let code = install(&mut cache, sample(5), Tier::Lcq, vec![]).unwrap();
    assert_eq!(address(&code.allocation), place);
    assert_eq!(code.bytes, sample(5).bytes);
}

#[test]
fn local_absolute_relocations_use_rx_not_rw_addresses() {
    let mut cache = cache();
    let mut data = output(HostAbi::X86_64, vec![0; 16]);
    data.metadata.relocations = vec![Relocation {
        offset: 0,
        kind: Reloc::Abs8,
        target: Target::Local(8),
        addend: 3,
    }];
    let code = install(&mut cache, data, Tier::Lcq, vec![None]).unwrap();
    let stored = u64::from_le_bytes(code.bytes[..8].try_into().unwrap());
    assert_eq!(stored as usize, address(&code.allocation) + 11);
}

#[test]
fn relocation_ranges_alignment_and_instruction_fields_are_checked() {
    let mut x86 = output(HostAbi::X86_64, vec![0; 8]);
    x86.metadata.relocations = vec![Relocation {
        offset: 0,
        kind: Reloc::X86CallPCRel4,
        target: Target::User { namespace: 1, index: 2 },
        addend: -4,
    }];
    x86.relocate(0x1000, &vec![Some(0x2000)]).unwrap();
    assert_eq!(i32::from_le_bytes(x86.bytes[..4].try_into().unwrap()), 0xffc);
    assert!(x86.relocate(0x1000, &vec![Some(usize::MAX)]).is_err());
    x86.metadata.relocations[0].kind = Reloc::X86GOTPCRel4;
    assert!(x86.relocate(0x1000, &vec![Some(0x2000)]).is_err());
    let mut arm = output(HostAbi::Aarch64, 0x97ff_ffffu32.to_le_bytes().to_vec());
    arm.metadata.relocations = vec![Relocation {
        offset: 0,
        kind: Reloc::Arm64Call,
        target: Target::User { namespace: 0, index: 0 },
        addend: 0,
    }];
    arm.relocate(0x1000, &vec![Some(0x1004)]).unwrap();
    assert_eq!(
        u32::from_le_bytes(arm.bytes[..4].try_into().unwrap()),
        0x94000001
    );
    assert!(arm.relocate(0x1000, &vec![Some(0x1002)]).is_err());
    assert!(arm.relocate(0x1000, &vec![Some(0x1000 + (1 << 27))]).is_err());
    arm.metadata.relocations[0].offset = 2;
    assert!(arm.relocate(0x1000, &vec![Some(0x1004)]).is_err());
}

#[test]
fn adrp_handles_the_full_signed_four_gibibyte_range_and_replaces_immediates() {
    let mut bytes = 0x90000000u32.to_le_bytes().to_vec();
    bytes.extend_from_slice(&0x91000000u32.to_le_bytes());
    let mut arm = output(HostAbi::Aarch64, bytes);
    arm.metadata.relocations = vec![
        Relocation {
            offset: 0,
            kind: Reloc::Aarch64AdrPrelPgHi21,
            target: Target::User { namespace: 0, index: 0 },
            addend: 0,
        },
        Relocation {
            offset: 4,
            kind: Reloc::Aarch64AddAbsLo12Nc,
            target: Target::User { namespace: 0, index: 0 },
            addend: 0,
        },
    ];
    let base = 1usize << 33;
    for target in [base + (1 << 32) - 1, base - (1 << 32), base + 0xabc] {
        arm.relocate(base, &vec![Some(target), Some(target)]).unwrap();
        let page = u32::from_le_bytes(arm.bytes[..4].try_into().unwrap());
        let immediate = ((page >> 29) & 3) | (((page >> 5) & 0x7ffff) << 2);
        let signed = ((immediate << 11) as i32) >> 11;
        assert_eq!(
            (base as i128) + ((signed as i128) << 12),
            (target & !4095) as i128
        );
        let low = u32::from_le_bytes(arm.bytes[4..].try_into().unwrap());
        assert_eq!((low >> 10) & 4095, target as u32 & 4095);
    }
    let far = base + (1 << 32);
    assert!(arm.relocate(base, &vec![Some(far), Some(far)]).is_err());
}

fn backend() -> BackendCode {
    BackendCode {
        bytes: vec![0; 32],
        alignment: 16,
        host_records: 0,
        boundary_error: None,
        frame_size: Some(4096),
        relocations: vec![RawRelocation {
            offset: 4,
            kind: Reloc::Abs4,
            target: RawTarget::User(0),
            addend: -4,
        }],
        symbols: vec![(3, 9)],
        entries: vec![(0, 0), (1, 16)],
        states: vec![Boundary { offset: 4, entry: false, patch_bytes: 0, values: 0 }],
        faults: vec![Boundary { offset: 8, entry: false, patch_bytes: 0, values: 0 }],
        traps: vec![Trap { offset: 12, code: 1 }],
    }
}

#[test]
fn backend_code_keeps_its_labels_and_symbols() {
    let output = Output::from_backend(HostAbi::X86_64, backend()).unwrap();
    assert_eq!(output.metadata.entries, vec![(0, 0), (1, 16)]);
    assert_eq!(
        output.metadata.relocations[0].target,
        Target::User { namespace: 3, index: 9 }
    );
    assert_eq!(output.metadata.frame_extent, 4096);
    assert_eq!(output.metadata.traps, vec![Trap { offset: 12, code: 1 }]);
}

#[test]
fn backend_code_with_host_records_is_refused() {
    let code = BackendCode { host_records: 1, ..backend() };
    assert!(matches!(
        Output::from_backend(HostAbi::X86_64, code),
        Err(Error::Output(_))
    ));
    let unknown = BackendCode { symbols: vec![], ..backend() };
    assert!(Output::from_backend(HostAbi::X86_64, unknown).is_err());
}

#[test]
fn span_churn_never_overlaps_live_allocations_and_returns_to_empty() {
    let mut cache = cache();
    let mut slots: Vec<Option<Allocation>> = Vec::new();
    for _ in 0..32 {
        slots.push(None);
    }
    let mut random = 1u64;
    for _ in 0..2000 {
        random = random.wrapping_mul(6364136223846793005).wrapping_add(1);
        let index = (random >> 32) as usize % slots.len();
        if let Some(allocation) = slots[index].take() {
            cache.release(allocation);
            continue;
        }
        let length = (random as usize % 1024) + 1;
        let alignment = 1 << (4 + (random >> 48) as usize % 9);
        let allocation = allocate(&mut cache, length, alignment, Tier::Lcq).unwrap();
        assert_eq!(address(&allocation) % alignment, 0);
        for other in slots.iter().flatten() {
            assert!(
                address(&allocation) + allocation.span.len <= address(other)
                    || address(other) + other.span.len <= address(&allocation)
            );
        }
        slots[index] = Some(allocation);
    }
    for allocation in slots.into_iter().flatten() {
        cache.release(allocation);
    }
    assert!(cache
        .segments
        .iter()
        .all(|segment| segment.live == 0 && segment.bump == 0 && segment.free.is_empty()));
}

#[test]
fn hard_limit_rejection_does_not_commit_a_segment_or_consume_reserve() {
    let mut cache = cache();
    let initial = cache.usage().unwrap();
    let charge = cache.charge_metadata(HARD_BYTES - initial.total(), Tier::Lcq).unwrap();
    assert!(install(&mut cache, sample(1), Tier::Lcq, vec![]).is_err());
    assert_eq!(cache.usage().unwrap().committed, 0);
    assert_eq!(cache.usage().unwrap().total(), HARD_BYTES);
    cache.release_metadata(charge);
    assert_eq!(cache.usage().unwrap(), initial);
}

#[test]
fn a_backing_that_cannot_be_released_poisons_the_cache() {
    let mut cache = cache();
    let Ok(AllocateStep::Commit(pending)) = cache.allocate(16, 16, Tier::Lcq) else {
        panic!("the first span needs a segment");
    };
    assert!(cache.finish_commit(pending, CommitOutcome::Stuck(12)).is_err());
    assert!(matches!(cache.usage(), Err(Error::Poisoned)));
    assert!(matches!(cache.allocate(16, 16, Tier::Lcq), Err(Error::Poisoned)));
}

#[test]
fn a_commit_that_failed_leaves_nothing_committed() {
    let mut cache = cache();
    let Ok(AllocateStep::Commit(pending)) = cache.allocate(16, 16, Tier::Lcq) else {
        panic!("the first span needs a segment");
    };
    assert!(matches!(
        cache.finish_commit(pending, CommitOutcome::Released(12)),
        Err(Error::Host { code: 12, .. })
    ));
    assert_eq!(cache.usage().unwrap().committed, 0);
    assert_eq!(cache.segments[0].live, 0);
    assert!(allocate(&mut cache, 16, 16, Tier::Lcq).is_ok());
}

#[test]
fn a_cache_closes_only_when_it_is_empty() {
    let mut cache = cache();
    let span = allocate(&mut cache, 16, 16, Tier::Lcq).unwrap();
    assert!(!cache.try_close().unwrap());
    cache.release(span);
    assert!(decommit(&mut cache, 0).unwrap());
    assert!(cache.try_close().unwrap());
    assert!(matches!(cache.charge_metadata(1, Tier::Lcq), Err(Error::Closed)));
}

#[test]
fn a_failed_copy_returns_the_span_and_an_open_window_stops_the_cache() {
    let mut cache = cache();
    let kept = install(&mut cache, sample(1), Tier::Lcq, vec![]).unwrap();
    let before = cache.usage().unwrap();
    let staged = cache.stage(10, 16, 128, Tier::Lcq).unwrap();
    let AllocateStep::Done(allocation) = staged.step else { panic!("segment is committed") };
    let refused = CopyOutcome::Refused { operation: "synchronize executable pipelines", code: 5 };
    assert!(matches!(
        cache.finish_copy(allocation, staged.lease, refused),
        Err(Error::Host { operation: "synchronize executable pipelines", code: 5 })
    ));
    assert_eq!(cache.usage().unwrap(), before);
    let staged = cache.stage(10, 16, 128, Tier::Lcq).unwrap();
    let AllocateStep::Done(allocation) = staged.step else { panic!("segment is committed") };
    let exposed = CopyOutcome::Exposed { operation: "change executable alias permissions", code: 1 };
    assert!(matches!(
        cache.finish_copy(allocation, staged.lease, exposed),
        Err(Error::Host { code: 1, .. })
    ));
    assert!(matches!(cache.usage(), Err(Error::Poisoned)));
    assert!(matches!(cache.stage(10, 16, 128, Tier::Lcq), Err(Error::Poisoned)));
    remove(&mut cache, kept);
}

#[test]
fn metadata_counts_what_it_owns() {
    let empty = output(HostAbi::X86_64, vec![]).metadata;
    let mut full = output(HostAbi::X86_64, vec![]).metadata;
    full.entries = vec![(0, 4), (1, 8)];
    full.faults = vec![Boundary { offset: 12, entry: false, patch_bytes: 0, values: 3 }];
    full.traps = vec![Trap { offset: 16, code: 2 }];
    assert_eq!(empty.bytes(), std::mem::size_of::<Metadata>());
    assert_eq!(
        full.bytes() - empty.bytes(),
        2 * std::mem::size_of::<(u32, u32)>()
            + std::mem::size_of::<Boundary>()
            + std::mem::size_of::<Trap>()
            + 3 * std::mem::size_of::<ValueBinding>()
    );
}

#[test]
fn freed_spans_stay_sorted_and_joined() {
    let span = |start, len| Span { start, len };
    let mut segment = Segment::empty();
    segment.insert_free(span(32, 16));
    segment.insert_free(span(0, 16));
    assert_eq!(segment.free, vec![span(0, 16), span(32, 16)]);
    segment.insert_free(span(64, 0));
    assert_eq!(segment.free.len(), 2);
    segment.insert_free(span(16, 16));
    assert_eq!(segment.free, vec![span(0, 48)]);
    segment.insert_free(span(48, 8));
    assert_eq!(segment.free, vec![span(0, 56)]);
    segment.insert_free(span(80, 8));
    segment.insert_free(span(72, 8));
    assert_eq!(segment.free, vec![span(0, 56), span(72, 16)]);
}

#[test]
fn only_outside_symbols_are_wanted() {
    let mut code = output(HostAbi::X86_64, vec![0; 16]);
    let relocation =
        |target| Relocation { offset: 0, kind: Reloc::Abs8, target, addend: 0 };
    let user = Target::User { namespace: 1, index: 2 };
    code.metadata.relocations = vec![relocation(Target::Local(4)), relocation(user)];
    assert_eq!(code.wanted_symbols(), vec![None, Some(user)]);
}

#[test]
fn installed_code_is_charged_for_its_record_and_what_it_owns() {
    let mut code = output(HostAbi::X86_64, vec![0; 16]);
    let record = std::mem::size_of::<nixe_cpu_jit::lifetime::unit::Installed>();
    assert_eq!(code.metadata_charge().unwrap(), record);
    code.metadata.entries = vec![(0, 4)];
    assert_eq!(
        code.metadata_charge().unwrap(),
        record + std::mem::size_of::<(u32, u32)>()
    );
}

#[test]
fn each_commit_takes_a_fresh_generation() {
    let mut cache = Cache::new(BASE, 4096);
    let first = allocate(&mut cache, 64, 16, Tier::Lcq).unwrap();
    assert_eq!(cache.address(&first), address(&first));
    let generation = first.generation;
    let segment = first.segment;
    cache.release(first);
    assert_eq!(cache.decommit_empty(segment).unwrap(), DecommitStep::Release);
    cache.finish_decommit(segment, Ok(())).unwrap();
    let second = allocate(&mut cache, 64, 16, Tier::Lcq).unwrap();
    assert_eq!(second.segment, segment);
    assert!(second.generation != generation);
}

#[test]
fn addresses_are_rounded_up() {
    assert_eq!(align(19, 16).unwrap(), 32);
    assert_eq!(align(32, 16).unwrap(), 32);
    assert_eq!(align(7, 1).unwrap(), 7);
    assert!(matches!(
        align(usize::MAX - 14, 16),
        Err(Error::Capacity("aligned address overflow"))
    ));
    assert_eq!(align(usize::MAX - 15, 16).unwrap(), usize::MAX - 15);
}
