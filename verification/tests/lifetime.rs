use nixe_cpu_jit::abi::contract::{EntryContract, ExitStateMap, NzcvLocation};
use nixe_cpu_jit::abi::dispatch::{ExitSiteKey, HcqEntry, NonZeroUsize, PublishedEntry};
use nixe_cpu_jit::abi::identity::{
    CheckedCounter, CodeUnitId, CodeVersion, FamilyVersion, HcqFamilyId, ReachabilityVersion,
};
use nixe_cpu_jit::abi::keys::{BlockKey, FpSpecialization, InstructionKey, ProcessCpuContext};
use nixe_cpu_jit::abi::{HostAbi, TRANSFER_BYTES};
use nixe_cpu_jit::analysis::StateSet;
use nixe_cpu_jit::executable::cache::{AllocateStep, Cache, CommitOutcome, DecommitStep};
use nixe_cpu_jit::executable::output::{Boundary, Metadata};
use nixe_cpu_jit::executable::{Tier, HARD_BYTES, SEGMENTS, SEGMENT_BYTES, SOFT_BYTES};
use nixe_cpu_jit::lifetime::coordinator::{Error, Phase, Reason, Transition};
use nixe_cpu_jit::lifetime::dispatch::{Invocation, LargerKeys};
use nixe_cpu_jit::lifetime::prepare::PreparedUnit;
use nixe_cpu_jit::lifetime::process::{next_process, Lifecycle, Lifetime};
use nixe_cpu_jit::lifetime::reclaim::UnitHandle;
use nixe_cpu_jit::lifetime::registry::Handle;
use nixe_cpu_jit::lifetime::units::LargerIndex;
use nixe_cpu_jit::lifetime::unit::{
    Access, CodePageDependency, Entry, FaultRecord, Input, Installed, Instruction, StateRecord,
};

const BASE: usize = 0x20_0000_0000;
const FIXED: usize = 4096;

fn numbered_process(identity: u64) -> Lifetime {
    match Lifetime::new(identity, identity, Cache::new(BASE, FIXED), Ok(())) {
        Ok(process) => process,
        Err((_, error)) => panic!("{error:?}"),
    }
}

fn process() -> Lifetime {
    numbered_process(1)
}

fn key(pc: u64) -> BlockKey {
    BlockKey::new(
        ProcessCpuContext { address_space: 1, profile: 1, platform: 1 },
        pc,
        FpSpecialization::Dynamic,
    )
    .unwrap()
}

fn entry(version: u64) -> PublishedEntry {
    PublishedEntry {
        unit: CodeUnitId::new(version + 10).unwrap(),
        version: CodeVersion::new(version).unwrap(),
        canonical: NonZeroUsize::new(version as usize * 16).unwrap(),
        fast: NonZeroUsize::new(version as usize * 16 + 8).unwrap(),
    }
}

fn install(process: &mut Lifetime, key: BlockKey, version: u64) -> ReachabilityVersion {
    let publication = process.reserve(key).unwrap();
    process.publish(publication, Some(entry(version)), None).unwrap()
}

fn announced(process: &Lifetime, reader: Handle) -> u64 {
    process.readers.get(reader).unwrap().epoch
}

fn enter(process: &mut Lifetime, reader: Handle, pc: u64) -> Invocation {
    process.enter(reader, key(pc)).unwrap().unwrap()
}

fn decommit(process: &mut Lifetime) {
    for segment in 0..SEGMENTS {
        if let Some(DecommitStep::Release) = process.begin_decommit(segment).unwrap() {
            process.finish_decommit(segment, Ok(())).unwrap();
        }
    }
}

fn reclaim(process: &mut Lifetime) -> Result<usize, Error> {
    let reclaimed = process.reclaim_units()?;
    let count = reclaimed.len();
    for unit in reclaimed {
        process.free_unit(unit);
    }
    decommit(process);
    process.collect_dispatch()?;
    Ok(count)
}

fn close(process: &mut Lifetime) -> Transition {
    let transition = process.core.try_transition().unwrap().unwrap();
    assert!(process.wait_closed(&transition).unwrap());
    transition
}

fn complete(process: &mut Lifetime, transition: &mut Transition) -> Result<(), Error> {
    let batch = process.core.batch(transition)?;
    process.complete(transition, batch, false)
}

fn try_finish_shutdown(process: &mut Lifetime, transition: &Transition) -> Result<bool, Error> {
    match process.begin_shutdown(transition)? {
        None => Ok(true),
        Some(reclaimed) => {
            for unit in reclaimed {
                process.free_unit(unit);
            }
            decommit(process);
            process.finish_shutdown(transition)
        }
    }
}

fn drain(process: &mut Lifetime) {
    let mut transition = close(process);
    if process.core.shutdown {
        assert!(try_finish_shutdown(process, &transition).unwrap());
    }
    process.drain_retirements(&transition).unwrap();
    complete(process, &mut transition).unwrap();
    assert!(process.core.try_reopen(&mut transition).unwrap());
}

fn relieve_pressure(
    process: &mut Lifetime,
    transition: &Transition,
    additional: usize,
    tier: Tier,
) -> Result<(), Error> {
    process.begin_relief(transition)?;
    loop {
        reclaim(process)?;
        match process.relief(additional, tier)? {
            None => return Ok(()),
            Some(unit) => process.evict(transition, unit)?,
        }
    }
}

fn allocate(process: &mut Lifetime, tier: Tier) -> Installed {
    let allocation = match process.cache.allocate(32, 16, tier).unwrap() {
        AllocateStep::Done(allocation) => allocation,
        AllocateStep::Commit(pending) => process
            .cache
            .finish_commit(pending, CommitOutcome::Committed)
            .unwrap(),
    };
    Installed {
        cache: process.cache_identity,
        address: BASE + allocation.segment * SEGMENT_BYTES + allocation.span.start,
        allocation,
        metadata: Metadata {
            abi: HostAbi::X86_64,
            frame_extent: TRANSFER_BYTES,
            entries: vec![(0, 4), (1, 5)],
            states: vec![],
            faults: vec![Boundary { offset: 12, entry: false, patch_bytes: 0, values: 0 }],
            traps: vec![],
            relocations: vec![],
        },
        charge: process.cache.charge_metadata(64, tier).unwrap(),
    }
}

fn input(process: &mut Lifetime, pcs: &[u64], tier: Tier) -> Input {
    let identity = process.begin_unit(tier).unwrap();
    let version = identity.version();
    let code = allocate(process, tier);
    let mut instructions = Vec::new();
    let mut entries = Vec::new();
    for (index, &pc) in pcs.iter().enumerate() {
        instructions.push(Instruction { key: InstructionKey::new(key(pc)).unwrap(), bits: 0 });
        entries.push(Entry {
            key: key(pc),
            canonical_offset: index as u32,
            fast_offset: 4 + index as u32,
            contract: EntryContract {
                live_in: StateSet::default(),
                abi: HostAbi::X86_64,
                bindings: vec![],
                nzcv: NzcvLocation::Canonical,
            },
        });
    }
    Input {
        identity,
        code,
        tier,
        dependencies: vec![CodePageDependency { page: pcs[0] / 4096, generation: 1 }],
        cursor: 0,
        states: vec![StateRecord {
            native_offset: 12,
            state: ExitStateMap {
                site: ExitSiteKey { source: version, state_map: 0 },
                abi: HostAbi::X86_64,
                live: StateSet::default(),
                dirty_live: StateSet::default(),
                bindings: vec![],
                nzcv: NzcvLocation::Canonical,
                host_fpsr_pending: false,
            },
        }],
        faults: vec![FaultRecord {
            native_start: 12,
            native_end: 16,
            instruction: instructions[0].key,
            access: Access::Read,
            bytes: 8,
            subaccess: 0,
            commit_stage: 0,
            state_map: 0,
        }],
        instructions,
        entries,
    }
}

fn prepare(process: &mut Lifetime, pcs: &[u64], tier: Tier) -> PreparedUnit {
    let mut publications = Vec::new();
    for &pc in pcs {
        publications.push(process.reserve(key(pc)).unwrap());
    }
    let input = input(process, pcs, tier);
    match process.prepare_unit(publications, input, 0) {
        Ok(prepared) => prepared,
        Err((_, error)) => panic!("{error:?}"),
    }
}

fn publish(process: &mut Lifetime, pcs: &[u64], tier: Tier) -> UnitHandle {
    let prepared = prepare(process, pcs, tier);
    match process.publish_unit(prepared, 0) {
        Ok(unit) => UnitHandle { unit, process: process.identity },
        Err((_, error)) => panic!("{error:?}"),
    }
}

fn abandon(process: &mut Lifetime, prepared: PreparedUnit) {
    let input = process.abandon_unit(prepared);
    process.discard(input);
}

fn address_of(process: &Lifetime, unit: UnitHandle) -> usize {
    process.units.records.get(unit.unit).unwrap().unit.input.code.address
}

#[test]
fn reader_announces_before_lookup_and_protects_copied_payload_until_exit() {
    let mut process = process();
    let reachability = install(&mut process, key(0), 1);
    let reader = process.register().unwrap();
    let invocation = enter(&mut process, reader, 0);
    assert_eq!(announced(&process, reader), 1);
    assert_eq!(invocation.payload.reachability(), reachability);
    assert_eq!(invocation.payload.preferred(), Some(entry(1)));
    install(&mut process, key(0), 2);
    assert_eq!(invocation.payload.preferred(), Some(entry(1)));
    process.leave(invocation);
    assert_eq!(announced(&process, reader), 0);
    let invocation = enter(&mut process, reader, 0);
    assert_eq!(invocation.payload.preferred(), Some(entry(2)));
}

#[test]
fn miss_unavailable_slot_and_closed_admission_finish_fp_and_clear_epochs() {
    let mut process = process();
    let reader = process.register().unwrap();
    for available_slot in [false, true] {
        if available_slot {
            process.reserve(key(0)).unwrap();
        }
        assert!(process.enter(reader, key(0)).unwrap().is_none());
        assert_eq!(announced(&process, reader), 0);
    }
    process.request(Reason::MappingChange).unwrap();
    assert!(matches!(process.enter(reader, key(0)), Err(Error::Closed)));
    assert_eq!(announced(&process, reader), 0);
}

#[test]
fn stale_and_foreign_publications_never_replace_current_payload() {
    let mut process = process();
    let old = process.reserve(key(0)).unwrap();
    process.publish(old, Some(entry(1)), None).unwrap();
    assert_eq!(
        process.publish(old, Some(entry(2)), None),
        Err(Error::StalePublication)
    );
    let captured = process.reserve(key(0)).unwrap();
    let mut foreign = numbered_process(2);
    foreign.reserve(key(0)).unwrap();
    assert_eq!(
        foreign.publish(captured, Some(entry(3)), None),
        Err(Error::StalePublication)
    );
    process.request(Reason::Eviction).unwrap();
    assert_eq!(
        process.publish(captured, Some(entry(4)), None),
        Err(Error::Closed)
    );
    drain(&mut process);
    assert_eq!(
        process.publish(captured, Some(entry(5)), None),
        Err(Error::StalePublication)
    );
    assert_eq!(
        process.slots.get(captured.slot).unwrap().payload.preferred(),
        Some(entry(1))
    );
}

#[test]
fn competing_publishers_have_one_winner_for_the_same_exact_snapshot() {
    let mut process = process();
    let captured = process.reserve(key(0)).unwrap();
    let results = [
        process.publish(captured, Some(entry(1)), None),
        process.publish(captured, Some(entry(2)), None),
    ];
    assert_eq!(results.iter().filter(|result| result.is_ok()).count(), 1);
    assert_eq!(
        results
            .iter()
            .filter(|result| **result == Err(Error::StalePublication))
            .count(),
        1
    );
}

#[test]
fn coherent_tier_payloads_survive_concurrent_replacement() {
    let mut process = process();
    install(&mut process, key(0), 1);
    let reader = process.register().unwrap();
    for version in 2..502 {
        let hcq = HcqEntry {
            entry: entry(version),
            family: HcqFamilyId::new(version + 1000).unwrap(),
            family_version: FamilyVersion::new(version + 2000).unwrap(),
        };
        let publication = process.reserve(key(0)).unwrap();
        process.publish(publication, Some(entry(1)), Some(hcq)).unwrap();
        let invocation = enter(&mut process, reader, 0);
        let payload = invocation.payload;
        assert_eq!(payload.lcq(), Some(entry(1)));
        let preferred = payload.preferred().unwrap();
        assert_eq!(preferred, entry(preferred.version.get()));
        if let Some(hcq) = payload.hcq() {
            assert_eq!(hcq.entry, preferred);
            assert_eq!(hcq.family.get(), preferred.version.get() + 1000);
            assert_eq!(hcq.family_version.get(), preferred.version.get() + 2000);
        }
        process.leave(invocation);
    }
}

#[test]
fn closing_waits_for_admitted_reader_even_before_its_machine_jump() {
    let mut process = process();
    install(&mut process, key(0), 1);
    let reader = process.register().unwrap();
    let invocation = enter(&mut process, reader, 0);
    let ticket = process.request(Reason::Eviction).unwrap();
    let mut transition = process.core.try_transition().unwrap().unwrap();
    assert_eq!(process.core.phase, Phase::Closing);
    assert!(process.core.try_transition().unwrap().is_none());
    assert!(!process.wait_closed(&transition).unwrap());
    assert!(!process.core.is_complete(&ticket).unwrap());
    process.leave(invocation);
    assert!(process.wait_closed(&transition).unwrap());
    complete(&mut process, &mut transition).unwrap();
    assert!(process.core.try_reopen(&mut transition).unwrap());
    assert!(process.core.is_complete(&ticket).unwrap());
    assert_eq!(process.core.control, 0);
}

#[test]
fn requests_arriving_in_closed_survive_old_batch_acknowledgement() {
    let mut process = process();
    let first = process.request(Reason::MappingChange).unwrap();
    let mut transition = close(&mut process);
    let batch = process.core.batch(&transition).unwrap();
    assert_eq!(batch.reasons(), vec![Reason::MappingChange]);
    let second = process.request(Reason::MappingChange).unwrap();
    let third = process.request(Reason::TierCutover).unwrap();
    process.complete(&mut transition, batch, false).unwrap();
    assert!(process.core.is_complete(&first).unwrap());
    assert!(!process.core.is_complete(&second).unwrap());
    assert!(!process.core.is_complete(&third).unwrap());
    assert!(!process.core.try_reopen(&mut transition).unwrap());
    assert_ne!(process.core.control, 0);
    complete(&mut process, &mut transition).unwrap();
    assert!(process.core.try_reopen(&mut transition).unwrap());
    assert!(process.core.is_complete(&second).unwrap());
    assert!(process.core.is_complete(&third).unwrap());
}

#[test]
fn abandoned_transition_and_batch_do_not_acknowledge_or_reopen() {
    let mut process = process();
    let ticket = process.request(Reason::MappingChange).unwrap();
    let transition = close(&mut process);
    process.core.batch(&transition).unwrap();
    process.core.abandon(transition);
    assert!(!process.core.is_complete(&ticket).unwrap());
    assert_eq!(process.core.phase, Phase::Closed);
    drain(&mut process);
    assert!(process.core.is_complete(&ticket).unwrap());
}

#[test]
fn completed_transition_cannot_clear_a_new_owners_claim() {
    let mut process = process();
    process.request(Reason::Eviction).unwrap();
    let mut first = close(&mut process);
    complete(&mut process, &mut first).unwrap();
    assert!(process.core.try_reopen(&mut first).unwrap());
    process.request(Reason::MappingChange).unwrap();
    let second = process.core.try_transition().unwrap().unwrap();
    assert_eq!(process.wait_closed(&first), Err(Error::Closed));
    process.core.abandon(first);
    assert!(process.core.try_transition().unwrap().is_none());
    process.core.abandon(second);
    drain(&mut process);
}

#[test]
fn shutdown_is_terminal_and_drains_earlier_work() {
    let mut process = process();
    let old = process.request(Reason::Eviction).unwrap();
    let shutdown = process.request(Reason::Shutdown).unwrap();
    drain(&mut process);
    assert!(process.core.is_complete(&old).unwrap());
    assert!(process.core.is_complete(&shutdown).unwrap());
    assert_eq!(process.core.phase, Phase::Closed);
    assert!(matches!(process.reserve(key(0)), Err(Error::Shutdown)));
    assert!(matches!(process.register(), Err(Error::Shutdown)));
    assert!(matches!(
        process.request(Reason::MappingChange),
        Err(Error::Shutdown)
    ));
    assert!(process.core.try_transition().unwrap().is_none());
    assert_ne!(process.core.control, 0);
}

#[test]
fn removed_dispatch_slots_wait_for_epochs_then_reuse_actual_storage() {
    let mut process = process();
    install(&mut process, key(0), 1);
    let old = process.reserve(key(0)).unwrap();
    assert_eq!(process.retire_dispatch(old), Err(Error::OccupiedDispatch));
    let reader = process.register().unwrap();
    let invocation = enter(&mut process, reader, 0);
    process.publish(old, None, None).unwrap();
    let empty = process.reserve(key(0)).unwrap();
    process.retire_dispatch(empty).unwrap();
    assert_eq!(process.collect_dispatch().unwrap(), 0);
    let new = process.reserve(key(0)).unwrap();
    assert_ne!(old.slot, new.slot);
    process.leave(invocation);
    assert_eq!(process.collect_dispatch().unwrap(), 1);
    let reused = process.reserve(key(4)).unwrap();
    assert_ne!(old.slot, reused.slot);
    assert!(process.slots.get(old.slot).is_none());
    assert_eq!(process.retire_dispatch(empty), Err(Error::StalePublication));
    assert_eq!(process.collect_dispatch().unwrap(), 0);
}

#[test]
fn readers_and_empty_dispatch_churn_reuse_bounded_slots() {
    let mut process = process();
    for i in 0..1000 {
        let reader = process.register().unwrap();
        let publication = process.reserve(key(i * 4)).unwrap();
        process.retire_dispatch(publication).unwrap();
        assert_eq!(process.collect_dispatch().unwrap(), 1);
        process.unregister(reader);
    }
    assert_eq!(process.readers.capacity(), 16);
    assert_eq!(process.slots.capacity(), 16);
    assert!(process.keys.is_empty());
    assert!(process.keys.capacity() < 64);
    assert!(process.readers.handles().is_empty());
}

#[test]
fn poison_disables_admission_but_reader_cleanup_still_completes() {
    let mut process = process();
    install(&mut process, key(0), 1);
    let reader = process.register().unwrap();
    let invocation = enter(&mut process, reader, 0);
    process.core.fail(Error::Poisoned);
    process.leave(invocation);
    assert_eq!(announced(&process, reader), 0);
    assert!(matches!(process.reserve(key(4)), Err(Error::Poisoned)));
    assert_ne!(process.core.control, 0);
}

#[test]
fn deferred_links_keep_their_ticket_and_control_request_for_the_next_stop() {
    let mut process = process();
    let link = process.request(Reason::LinkPatch).unwrap();
    let mut first = close(&mut process);
    let batch = process.core.batch(&first).unwrap();
    let safety = process.request(Reason::MappingChange).unwrap();
    process.complete(&mut first, batch, true).unwrap();
    assert!(!process.core.try_reopen(&mut first).unwrap());
    let batch = process.core.batch(&first).unwrap();
    process.complete(&mut first, batch, true).unwrap();
    assert!(process.core.try_reopen(&mut first).unwrap());
    assert!(!process.core.is_complete(&link).unwrap());
    assert!(process.core.is_complete(&safety).unwrap());
    assert_eq!(process.core.control, Reason::LinkPatch.mask());
    drain(&mut process);
    assert!(process.core.is_complete(&link).unwrap());
    assert_eq!(process.core.control, 0);
}

#[test]
fn shutdown_cannot_leave_deferred_link_records_behind() {
    let mut process = process();
    process.request(Reason::LinkPatch).unwrap();
    process.request(Reason::Shutdown).unwrap();
    let mut transition = close(&mut process);
    assert!(try_finish_shutdown(&mut process, &transition).unwrap());
    let batch = process.core.batch(&transition).unwrap();
    process.complete(&mut transition, batch, true).unwrap();
    assert!(!process.core.try_reopen(&mut transition).unwrap());
    complete(&mut process, &mut transition).unwrap();
    assert!(process.core.try_reopen(&mut transition).unwrap());
    assert_eq!(process.core.phase, Phase::Closed);
}

#[test]
fn counter_exhaustion_fails_closed_without_success_or_wrapping() {
    let mut first = process();
    let publication = first.reserve(key(0)).unwrap();
    first.reachabilities = CheckedCounter::exhausted();
    assert!(matches!(
        first.publish(publication, Some(entry(1)), None),
        Err(Error::Exhausted(_))
    ));
    assert!(first.slots.get(publication.slot).unwrap().payload.preferred().is_none());
    assert_ne!(first.core.control, 0);

    let mut second = process();
    second.core.sequences = CheckedCounter::exhausted();
    assert!(matches!(
        second.request(Reason::MappingChange),
        Err(Error::Exhausted(_))
    ));
    assert_eq!(second.core.phase, Phase::Closing);

    let mut third = process();
    third.core.admissions = CheckedCounter::exhausted();
    assert!(matches!(third.request(Reason::Eviction), Err(Error::Exhausted(_))));
    assert_eq!(third.core.admission.get(), 1);
    assert!(matches!(third.reserve(key(0)), Err(Error::Exhausted(_))));

    let mut fourth = process();
    let publication = fourth.reserve(key(0)).unwrap();
    fourth.core.executions = CheckedCounter::exhausted();
    assert!(matches!(
        fourth.retire_dispatch(publication),
        Err(Error::Exhausted(_))
    ));
    assert_eq!(fourth.keys.get(key(0)), Some(publication.slot));
    assert!(fourth.slots.get(publication.slot).unwrap().retired.is_none());
    assert_eq!(fourth.core.execution.get(), 1);
}

#[test]
fn reopen_epoch_exhaustion_keeps_admission_closed() {
    let mut process = process();
    process.request(Reason::Eviction).unwrap();
    let mut transition = close(&mut process);
    complete(&mut process, &mut transition).unwrap();
    process.core.admissions = CheckedCounter::exhausted();
    assert!(matches!(
        process.core.try_reopen(&mut transition),
        Err(Error::Exhausted(_))
    ));
    assert_eq!(process.core.phase, Phase::Closed);
    assert_ne!(process.core.control, 0);
}

#[test]
fn a_newer_invocation_does_not_pin_an_already_retired_slot() {
    let mut process = process();
    install(&mut process, key(0), 1);
    let reader = process.register().unwrap();
    let invocation = enter(&mut process, reader, 0);
    let publication = process.reserve(key(0)).unwrap();
    process.publish(publication, None, None).unwrap();
    let empty = process.reserve(key(0)).unwrap();
    process.retire_dispatch(empty).unwrap();
    assert_eq!(process.collect_dispatch().unwrap(), 0);
    process.leave(invocation);
    install(&mut process, key(4), 2);
    let invocation = enter(&mut process, reader, 4);
    assert_eq!(invocation.execution, 2);
    assert_eq!(process.collect_dispatch().unwrap(), 1);
    assert_eq!(invocation.payload.preferred(), Some(entry(2)));
}

#[test]
fn concurrent_same_key_reservations_install_one_slot() {
    let mut process = process();
    let mut slots = Vec::new();
    for _ in 0..8 {
        slots.push(process.reserve(key(0)).unwrap().slot);
    }
    assert!(slots.iter().all(|slot| *slot == slots[0]));
    assert_eq!(process.keys.len(), 1);
    assert_eq!(process.slots.handles().len(), 1);
    assert_eq!(process.slots.capacity(), 16);
}

#[test]
fn dispatch_readers_and_index_storage_share_the_executable_budget() {
    let cache = Cache::new(BASE, FIXED);
    let initial = cache.usage().unwrap();
    let Ok(mut process) = Lifetime::new(1, 1, cache, Ok(())) else {
        panic!("there is room for a process");
    };
    let root = process.cache.usage().unwrap();
    assert!(root.metadata > initial.metadata);
    let reader = process.register().unwrap();
    let registered = process.cache.usage().unwrap();
    assert!(registered.metadata > root.metadata);
    process.unregister(reader);
    assert!(process.cache.usage().unwrap().metadata < registered.metadata);
    install(&mut process, key(0), 1);
    let resident = process.cache.usage().unwrap();
    for version in 2..32 {
        install(&mut process, key(0), version);
    }
    assert_eq!(process.cache.usage().unwrap(), resident);
    let publication = process.reserve(key(0)).unwrap();
    process.publish(publication, None, None).unwrap();
    let empty = process.reserve(key(0)).unwrap();
    process.retire_dispatch(empty).unwrap();
    assert_eq!(process.cache.usage().unwrap(), resident);
    assert_eq!(process.collect_dispatch().unwrap(), 1);
    assert!(process.cache.usage().unwrap().metadata < resident.metadata);
    assert_eq!(process.dissolve().usage().unwrap(), initial);
}

#[test]
fn publication_capacity_failure_keeps_the_old_entry_and_admission_works_without_allocation() {
    let mut process = process();
    let reader = process.register().unwrap();
    let reachability = install(&mut process, key(0), 1);
    let captured = process.reserve(key(0)).unwrap();
    let available = HARD_BYTES - process.cache.usage().unwrap().total();
    process.cache.charge_metadata(available, Tier::Lcq).unwrap();
    assert!(matches!(
        process.publish(captured, Some(entry(2)), None),
        Err(Error::Capacity(_))
    ));
    let invocation = enter(&mut process, reader, 0);
    assert_eq!(invocation.payload.preferred(), Some(entry(1)));
    assert_eq!(invocation.payload.reachability(), reachability);
    assert_eq!(process.cache.usage().unwrap().total(), HARD_BYTES);
}

#[test]
fn snapshots_pin_actual_code_dependencies_and_slots_until_last_release() {
    let mut process = process();
    let old = publish(&mut process, &[0], Tier::Lcq);
    let survivor = publish(&mut process, &[4], Tier::Lcq);
    process.snapshot(old).unwrap();
    let address = address_of(&process, old);
    let ticket = process.retire_unit(old).unwrap();
    drain(&mut process);
    assert!(process.core.is_complete(&ticket).unwrap());
    assert!(matches!(process.snapshot(old), Err(Error::StaleUnit)));
    process.share_snapshot(old).unwrap(); // Existing compiler ownership remains valid.
    process.release_snapshot(old);
    assert_eq!(reclaim(&mut process).unwrap(), 0);
    assert_eq!(process.units.dependencies.len(), 2);
    let unrelated = input(&mut process, &[8], Tier::Lcq);
    assert_ne!(unrelated.code.address, address);
    process.discard(unrelated);
    process.release_snapshot(old);
    assert_eq!(reclaim(&mut process).unwrap(), 1);
    assert_eq!(process.units.dependencies.len(), 1);
    assert!(process.units.records.get(old.unit).is_none());
    assert!(process.units.records.get(survivor.unit).is_some());
    let new = publish(&mut process, &[0], Tier::Lcq);
    assert_ne!(new, old);
    assert_eq!(address_of(&process, new), address);
    assert!(matches!(process.retire_unit(old), Err(Error::StaleUnit)));
    assert!(process.snapshot(new).is_ok());
}

#[test]
fn newer_fault_reader_needs_a_second_grace_period_after_unlink() {
    let mut process = process();
    let old = publish(&mut process, &[0], Tier::Lcq);
    publish(&mut process, &[4], Tier::Lcq);
    let address = address_of(&process, old);
    process.retire_unit(old).unwrap();
    drain(&mut process);
    let reader = process.register().unwrap();
    let invocation = enter(&mut process, reader, 4);
    let fault = process.lookup(address + 12).unwrap();
    assert_eq!(reclaim(&mut process).unwrap(), 0);
    assert!(process.lookup(address + 12).is_none());
    let named = UnitHandle { unit: fault.unit, process: process.identity };
    assert_eq!(address_of(&process, named), address);
    assert!(process.units.records.get(old.unit).is_some());
    process.leave(invocation);
    assert_eq!(reclaim(&mut process).unwrap(), 1);
}

#[test]
fn closure_waits_for_native_invocation_before_unlink() {
    let mut process = process();
    let old = publish(&mut process, &[0], Tier::Lcq);
    let reader = process.register().unwrap();
    let invocation = enter(&mut process, reader, 0);
    process.retire_unit(old).unwrap();
    assert_eq!(reclaim(&mut process).unwrap(), 0);
    let mut transition = process.core.try_transition().unwrap().unwrap();
    assert!(!process.wait_closed(&transition).unwrap());
    assert_eq!(process.core.phase, Phase::Closing);
    let entered = invocation.payload.preferred().unwrap().canonical.get();
    assert!(process.lookup(entered + 12).is_some());
    process.leave(invocation);
    assert!(process.wait_closed(&transition).unwrap());
    process.drain_retirements(&transition).unwrap();
    assert_eq!(reclaim(&mut process).unwrap(), 1);
    complete(&mut process, &mut transition).unwrap();
    assert!(process.core.try_reopen(&mut transition).unwrap());
}

#[test]
fn empty_segment_republication_uses_same_address_but_fresh_generation() {
    let mut process = process();
    let old = publish(&mut process, &[0], Tier::Lcq);
    let address = address_of(&process, old);
    let generation =
        process.units.records.get(old.unit).unwrap().unit.input.code.allocation.generation;
    process.retire_unit(old).unwrap();
    drain(&mut process);
    assert_eq!(reclaim(&mut process).unwrap(), 1);
    assert_eq!(process.cache.usage().unwrap().committed, 0);
    let new = publish(&mut process, &[0], Tier::Lcq);
    assert_eq!(address_of(&process, new), address);
    assert_ne!(
        process.units.records.get(new.unit).unwrap().unit.input.code.allocation.generation,
        generation
    );
    assert_eq!(process.lookup(address + 12).unwrap().unit, new.unit);
}

#[test]
fn hcq_retirement_restores_all_baselines_and_releases_family_pins() {
    let mut process = process();
    let lcq = publish(&mut process, &[0, 4], Tier::Lcq);
    let hcq = publish(&mut process, &[0, 4], Tier::Hcq);
    assert!(matches!(process.retire_unit(lcq), Err(Error::PinnedBaseline)));
    let family = process.units.records.get(hcq.unit).unwrap().family.unwrap();
    process.snapshot(hcq).unwrap();
    process.retire_unit(hcq).unwrap();
    drain(&mut process);
    for pc in [0, 4] {
        let slot = process.keys.get(key(pc)).unwrap();
        let payload = process.slots.get(slot).unwrap().payload;
        assert!(payload.hcq().is_none());
        assert_eq!(payload.preferred(), payload.lcq());
    }
    assert!(!process.units.families.is_empty());
    process.retire_unit(lcq).unwrap();
    drain(&mut process);
    assert_eq!(reclaim(&mut process).unwrap(), 1);
    process.release_snapshot(hcq);
    assert_eq!(reclaim(&mut process).unwrap(), 1);
    assert!(process.units.families.is_empty());
    assert!(process.units.families.get(family).is_none());
    assert!(process.slots.is_empty());
}

#[test]
fn in_flight_family_prevents_baseline_eviction_until_cancelled() {
    let mut process = process();
    let lcq = publish(&mut process, &[0], Tier::Lcq);
    let prepared = prepare(&mut process, &[0], Tier::Hcq);
    assert!(matches!(process.retire_unit(lcq), Err(Error::PinnedBaseline)));
    abandon(&mut process, prepared);
    process.retire_unit(lcq).unwrap();
    drain(&mut process);
    assert_eq!(reclaim(&mut process).unwrap(), 1);
}

#[test]
fn lcq_cutover_cannot_be_acknowledged_without_draining_exact_old_owner() {
    let mut process = process();
    let old = publish(&mut process, &[0], Tier::Lcq);
    let new = publish(&mut process, &[0], Tier::Lcq);
    let mut transition = close(&mut process);
    assert_eq!(
        complete(&mut process, &mut transition),
        Err(Error::MaintenancePending)
    );
    assert_eq!(process.drain_retirements(&transition).unwrap(), 1);
    assert_eq!(reclaim(&mut process).unwrap(), 1);
    complete(&mut process, &mut transition).unwrap();
    assert!(process.core.try_reopen(&mut transition).unwrap());
    assert!(matches!(process.snapshot(old), Err(Error::StaleUnit)));
    assert!(process.snapshot(new).is_ok());
}

#[test]
fn handles_are_process_scoped_and_exhaustion_never_partially_unlinks() {
    let mut process = process();
    let mut other = numbered_process(2);
    let old = publish(&mut process, &[0, 4], Tier::Lcq);
    publish(&mut other, &[0, 4], Tier::Lcq);
    assert!(matches!(other.snapshot(old), Err(Error::StaleUnit)));
    assert!(matches!(other.retire_unit(old), Err(Error::StaleUnit)));
    process.retire_unit(old).unwrap();
    let transition = close(&mut process);
    process.reachabilities = CheckedCounter::exhausted();
    assert!(matches!(
        process.drain_retirements(&transition),
        Err(Error::Exhausted(_))
    ));
    for pc in [0, 4] {
        let slot = process.keys.get(key(pc)).unwrap();
        assert!(process.slots.get(slot).unwrap().payload.lcq().is_some());
    }
}

#[test]
fn closed_reclamation_makes_progress_with_no_free_metadata_budget() {
    let mut process = process();
    let old = publish(&mut process, &[0], Tier::Lcq);
    publish(&mut process, &[4], Tier::Lcq);
    let available = HARD_BYTES - process.cache.usage().unwrap().total();
    let charge = process.cache.charge_metadata(available, Tier::Lcq).unwrap();
    process.retire_unit(old).unwrap();
    let mut transition = close(&mut process);
    process.drain_retirements(&transition).unwrap();
    assert_eq!(reclaim(&mut process).unwrap(), 1);
    complete(&mut process, &mut transition).unwrap();
    assert!(process.core.try_reopen(&mut transition).unwrap());
    process.cache.release_metadata(charge);
}

#[test]
fn pressure_evicts_oldest_hcq_before_any_lcq_without_waiting_on_snapshots() {
    let mut process = process();
    let lcq = publish(&mut process, &[0, 4], Tier::Lcq);
    let first = publish(&mut process, &[0], Tier::Hcq);
    let second = publish(&mut process, &[4], Tier::Hcq);
    process.snapshot(first).unwrap();
    let filler = SOFT_BYTES + SEGMENT_BYTES / 2 - process.cache.usage().unwrap().total();
    let charge = process.cache.charge_metadata(filler, Tier::Lcq).unwrap();
    process.request(Reason::Eviction).unwrap();
    let mut transition = close(&mut process);
    assert!(matches!(
        relieve_pressure(&mut process, &transition, 0, Tier::Hcq),
        Err(Error::Capacity(_))
    ));
    assert!(process.units.records.get(second.unit).is_none());
    assert!(process.units.records.get(lcq.unit).is_some());
    assert!(process.units.records.get(first.unit).is_some());
    process.release_snapshot(first);
    relieve_pressure(&mut process, &transition, 0, Tier::Hcq).unwrap();
    assert!(process.units.records.get(first.unit).is_none());
    complete(&mut process, &mut transition).unwrap();
    assert!(process.core.try_reopen(&mut transition).unwrap());
    process.cache.release_metadata(charge);
}

#[test]
fn shutdown_waits_for_snapshots_and_unpublished_outputs_then_unmaps() {
    let mut process = process();
    let lcq = publish(&mut process, &[0], Tier::Lcq);
    process.snapshot(lcq).unwrap();
    let staged = input(&mut process, &[4], Tier::Lcq);
    process.register().unwrap();
    let ticket = process.request(Reason::Shutdown).unwrap();
    let mut transition = close(&mut process);
    assert!(!try_finish_shutdown(&mut process, &transition).unwrap());
    assert_eq!(
        complete(&mut process, &mut transition),
        Err(Error::MaintenancePending)
    );
    process.release_snapshot(lcq);
    assert!(!try_finish_shutdown(&mut process, &transition).unwrap());
    process.discard(staged);
    assert!(try_finish_shutdown(&mut process, &transition).unwrap());
    complete(&mut process, &mut transition).unwrap();
    assert!(process.core.is_complete(&ticket).unwrap());
    assert!(process.core.try_reopen(&mut transition).unwrap());
    assert_eq!(process.cache.usage().unwrap().committed, 0);
    assert_eq!(process.units.records.capacity(), 0);
    assert_eq!(process.slots.capacity(), 0);
    assert_eq!(process.readers.capacity(), 0);
    assert!(matches!(
        process.cache.charge_metadata(1, Tier::Lcq),
        Err(nixe_cpu_jit::executable::Error::Closed)
    ));
    assert_eq!(process.dissolve().usage().unwrap().metadata, FIXED);
}

#[test]
fn partial_lcq_replacement_retains_other_roots_until_final_cutover() {
    let mut process = process();
    let old = publish(&mut process, &[0, 4], Tier::Lcq);
    publish(&mut process, &[0], Tier::Lcq);
    drain(&mut process);
    assert_eq!(reclaim(&mut process).unwrap(), 0);
    assert!(process.snapshot(old).is_ok());
    process.release_snapshot(old);
    publish(&mut process, &[4], Tier::Lcq);
    drain(&mut process);
    assert_eq!(reclaim(&mut process).unwrap(), 1);
    assert!(matches!(process.snapshot(old), Err(Error::StaleUnit)));
}

#[test]
fn requests_arriving_during_closed_keep_their_exact_targets_pending() {
    let mut process = process();
    let first = publish(&mut process, &[0], Tier::Lcq);
    let second = publish(&mut process, &[4], Tier::Lcq);
    let first_ticket = process.retire_unit(first).unwrap();
    let mut transition = close(&mut process);
    process.drain_retirements(&transition).unwrap();
    let batch = process.core.batch(&transition).unwrap();
    let second_ticket = process.retire_unit(second).unwrap();
    process.complete(&mut transition, batch, false).unwrap();
    assert!(process.core.is_complete(&first_ticket).unwrap());
    assert!(!process.core.is_complete(&second_ticket).unwrap());
    assert!(!process.core.try_reopen(&mut transition).unwrap());
    assert_eq!(
        complete(&mut process, &mut transition),
        Err(Error::MaintenancePending)
    );
    assert_eq!(process.drain_retirements(&transition).unwrap(), 1);
    assert_eq!(reclaim(&mut process).unwrap(), 2);
    complete(&mut process, &mut transition).unwrap();
    assert!(process.core.is_complete(&second_ticket).unwrap());
    assert!(process.core.try_reopen(&mut transition).unwrap());
}

#[test]
fn pressure_returns_empty_compiler_reservations_without_reviving_old_handles() {
    let mut process = process();
    let old = process.reserve(key(0)).unwrap();
    process.request(Reason::Eviction).unwrap();
    let mut transition = close(&mut process);
    relieve_pressure(&mut process, &transition, 0, Tier::Lcq).unwrap();
    assert!(process.keys.is_empty());
    assert!(process.slots.is_empty());
    complete(&mut process, &mut transition).unwrap();
    assert!(process.core.try_reopen(&mut transition).unwrap());
    let new = process.reserve(key(0)).unwrap();
    assert_ne!(old.slot, new.slot);
    assert_eq!(process.retire_dispatch(old), Err(Error::StalePublication));
}

#[test]
fn repeated_lcq_hcq_churn_reuses_bounded_metadata_and_executable_storage() {
    let mut process = process();
    let mut expected = None;
    for _ in 0..128 {
        let lcq = publish(&mut process, &[0, 4], Tier::Lcq);
        let hcq = publish(&mut process, &[0, 4], Tier::Hcq);
        process.retire_unit(hcq).unwrap();
        drain(&mut process);
        process.retire_unit(lcq).unwrap();
        drain(&mut process);
        assert_eq!(reclaim(&mut process).unwrap(), 2);
        assert!(process.units.records.is_empty());
        assert!(process.units.families.is_empty());
        assert!(process.slots.is_empty());
        assert!(process.keys.is_empty());
        assert_eq!(process.units.dependencies.len(), 0);
        let capacities = (
            process.units.records.capacity(),
            process.units.families.capacity(),
            process.slots.capacity(),
        );
        let usage = process.cache.usage().unwrap();
        assert_eq!(usage.committed, 0);
        assert_eq!(*expected.get_or_insert((capacities, usage)), (capacities, usage));
    }
}

#[test]
fn compiler_table_snapshot_blocks_in_place_mutation_not_unlink() {
    let mut process = process();
    let old = publish(&mut process, &[0], Tier::Lcq);
    publish(&mut process, &[4], Tier::Lcq);
    let prepared = prepare(&mut process, &[8], Tier::Lcq);
    let available = HARD_BYTES - process.cache.usage().unwrap().total();
    let charge = process.cache.charge_metadata(available, Tier::Lcq).unwrap();
    process.retire_unit(old).unwrap();
    let mut transition = close(&mut process);
    process.drain_retirements(&transition).unwrap();
    assert_eq!(reclaim(&mut process).unwrap(), 0);
    assert!(process.units.records.get(old.unit).is_some());
    abandon(&mut process, prepared);
    assert_eq!(reclaim(&mut process).unwrap(), 1);
    complete(&mut process, &mut transition).unwrap();
    assert!(process.core.try_reopen(&mut transition).unwrap());
    process.cache.release_metadata(charge);
}

#[test]
fn pressure_uses_creation_order_and_lcq_reports_hard_capacity_precisely() {
    let mut process = process();
    let lcq = publish(&mut process, &[0, 4], Tier::Lcq);
    let first = publish(&mut process, &[0], Tier::Hcq);
    let second = publish(&mut process, &[4], Tier::Hcq);
    process.snapshot(first).unwrap();
    process.snapshot(second).unwrap();
    let filler = SOFT_BYTES + SEGMENT_BYTES / 2 - process.cache.usage().unwrap().total();
    let charge = process.cache.charge_metadata(filler, Tier::Lcq).unwrap();
    process.request(Reason::Eviction).unwrap();
    let mut transition = close(&mut process);
    assert!(matches!(
        relieve_pressure(&mut process, &transition, 0, Tier::Hcq),
        Err(Error::Capacity(_))
    ));
    let Lifecycle::Retired(a) = process.units.records.get(first.unit).unwrap().lifecycle else {
        panic!("the older unit went first");
    };
    let Lifecycle::Retired(b) = process.units.records.get(second.unit).unwrap().lifecycle else {
        panic!("the younger unit went too");
    };
    assert!(a.get() < b.get());
    assert_eq!(
        process.units.records.get(lcq.unit).unwrap().lifecycle,
        Lifecycle::Published
    );
    assert_eq!(
        relieve_pressure(&mut process, &transition, HARD_BYTES, Tier::Lcq),
        Err(Error::Capacity("640 MiB code+metadata hard limit"))
    );
    process.release_snapshot(first);
    process.release_snapshot(second);
    assert_eq!(reclaim(&mut process).unwrap(), 2);
    complete(&mut process, &mut transition).unwrap();
    assert!(process.core.try_reopen(&mut transition).unwrap());
    process.cache.release_metadata(charge);
}

#[test]
fn units_that_name_another_process_are_refused() {
    let mut process = process();
    let publication = process.reserve(key(0)).unwrap();
    let mut foreign = input(&mut process, &[0], Tier::Lcq);
    foreign.code.cache = 9;
    let Err((foreign, error)) = process.prepare_unit(vec![publication], foreign, 0) else {
        panic!("a foreign unit was prepared");
    };
    assert_eq!(
        error,
        Error::InvalidUnit("executable allocation belongs to a different process cache")
    );
    let mut late = foreign;
    late.code.cache = process.cache_identity;
    assert!(matches!(
        process.prepare_unit(vec![publication], late, 1),
        Err((_, Error::StalePublication))
    ));
}

#[test]
fn a_host_that_is_not_supported_starts_no_process() {
    assert!(matches!(
        Lifetime::new(1, 1, Cache::new(BASE, FIXED), Err("no such host")),
        Err((_, Error::UnsupportedHost("no such host")))
    ));
    assert_eq!(next_process(1), Ok(2));
    assert!(matches!(next_process(u64::MAX), Err(Error::Exhausted(_))));
}

#[test]
fn error_texts() {
    assert_eq!(Error::Closed.message(), "JIT admission is closed for maintenance");
    assert_eq!(Error::Capacity("full").message(), "JIT capacity: full");
}

#[test]
fn an_abandoned_preparation_leaves_no_charge() {
    let mut process = process();
    let first = prepare(&mut process, &[0], Tier::Lcq);
    abandon(&mut process, first);
    let resting = process.cache.usage().unwrap();
    let again = prepare(&mut process, &[0], Tier::Lcq);
    let charged = process.cache.usage().unwrap().metadata - resting.metadata;
    let own = again.held.bytes + again.charge.bytes + again.table_charge.bytes;
    assert!(own > 0);
    assert_eq!(charged, own + again.unit.input.code.charge.bytes);
    abandon(&mut process, again);
    assert_eq!(process.cache.usage().unwrap().metadata, resting.metadata);
}

#[test]
fn publication_returns_what_it_held_and_keeps_the_rest() {
    let mut process = process();
    let prepared = prepare(&mut process, &[0], Tier::Lcq);
    let before = process.cache.usage().unwrap();
    let held = prepared.held.bytes;
    let kept = prepared.charge.bytes;
    let table = prepared.table_charge.bytes;
    let segment = prepared.unit.input.code.allocation.segment;
    let unit = match process.publish_unit(prepared, 0) {
        Ok(unit) => unit,
        Err((_, error)) => panic!("{error:?}"),
    };
    assert!(held > 0);
    assert_eq!(process.cache.usage().unwrap().metadata, before.metadata - held);
    assert_eq!(process.units.records.get(unit).unwrap().charge.bytes, kept);
    assert_eq!(process.units.tables[segment].as_ref().unwrap().charge.bytes, table);
}

#[test]
fn a_preparation_that_does_not_fit_is_returned_uncharged() {
    let mut process = process();
    let first = prepare(&mut process, &[0], Tier::Lcq);
    abandon(&mut process, first);
    let publication = process.reserve(key(0)).unwrap();
    let input = input(&mut process, &[0], Tier::Lcq);
    let available = HARD_BYTES - process.cache.usage().unwrap().total();
    let filler = process.cache.charge_metadata(available, Tier::Lcq).unwrap();
    let full = process.cache.usage().unwrap();
    let input = match process.prepare_unit(vec![publication], input, 0) {
        Ok(_) => panic!("a full budget takes no preparation"),
        Err((input, error)) => {
            assert_eq!(error, Error::Capacity("640 MiB code+metadata hard limit"));
            input
        }
    };
    assert_eq!(process.cache.usage().unwrap(), full);
    process.cache.release_metadata(filler);
    assert!(process.prepare_unit(vec![publication], input, 0).is_ok());
}

#[test]
fn a_snapshot_that_nobody_holds_cannot_be_shared() {
    let mut process = process();
    let unit = publish(&mut process, &[0], Tier::Lcq);
    assert_eq!(process.share_snapshot(unit), Err(Error::StaleUnit));
    process.snapshot(unit).unwrap();
    process.share_snapshot(unit).unwrap();
    assert_eq!(process.units.records.get(unit.unit).unwrap().snapshots, 2);
    let foreign = UnitHandle { process: 9, ..unit };
    assert_eq!(process.share_snapshot(foreign), Err(Error::StaleUnit));
}

#[test]
fn a_publication_without_room_for_its_pages_is_stale() {
    let mut process = process();
    let prepared = prepare(&mut process, &[0], Tier::Lcq);
    assert_eq!(prepared.unit.input.dependencies.len(), 1);
    let cursor = prepared.unit.input.cursor;
    let Err((prepared, error)) = process.publish_with_room(prepared, cursor, 0) else {
        panic!("there is no room");
    };
    assert_eq!(error, Error::StalePublication);
    assert!(process.publish_with_room(prepared, cursor, 1).is_ok());
    assert_eq!(process.units.dependencies.len(), 1);
}

#[test]
fn a_larger_index_of_pages_is_asked_for_where_none_fits_in() {
    let mut process = process();
    assert_eq!(process.request_index(1, 0), Ok(Some(16)));
    assert_eq!(process.request_index(100, 0), Ok(Some(100)));
    assert_eq!(process.request_index(1, 1), Ok(None));
    assert_eq!(process.request_index(1000, 600), Ok(Some(1200)));
    publish(&mut process, &[0], Tier::Lcq);
    assert!(process.units.dependencies.capacity() >= 16);
    assert_eq!(
        process.request_index(usize::MAX, 0),
        Err(Error::Capacity("dependency index size overflow"))
    );
    let before = process.cache.usage().unwrap().metadata;
    let charged = process.units.dependency_storage.as_ref().unwrap().bytes;
    let index = process.units.dependencies.with_room(64);
    assert!(index.capacity() >= 64);
    assert!(index.allocation_size() >= 64 * std::mem::size_of::<(u64, u64, usize, u64)>());
    let larger = LargerIndex { index, bytes: 4096 };
    process.grow_units_with(Tier::Lcq, 1, 1, Some(larger)).unwrap();
    assert_eq!(process.cache.usage().unwrap().metadata, before + 4096 - charged);
    assert_eq!(process.units.dependencies.len(), 1);
    let index = process.units.dependencies.with_room(64);
    let larger = LargerIndex { index, bytes: HARD_BYTES };
    assert!(matches!(
        process.grow_units_with(Tier::Lcq, 1, 1, Some(larger)),
        Err(Error::Capacity(_))
    ));
}

#[test]
fn storage_grows_together_or_not_at_all() {
    let mut process = process();
    let before = process.cache.usage().unwrap().metadata;
    let index = process.units.dependencies.with_room(64);
    let larger = LargerIndex { index, bytes: HARD_BYTES - before };
    assert!(matches!(
        process.grow_units_with(Tier::Lcq, 1, 0, Some(larger)),
        Err(Error::Capacity(_))
    ));
    assert!(process.units.record_storage.is_none());
    assert!(process.units.retired_storage.is_none());
    assert!(process.units.dependency_storage.is_none());
    assert_eq!(process.cache.usage().unwrap().metadata, before);
    process.grow_units(Tier::Lcq, 1).unwrap();
    assert!(process.units.record_storage.is_some());
    assert!(process.units.family_storage.is_none());
    process.grow_units(Tier::Hcq, 1).unwrap();
    assert!(process.units.family_storage.is_some());
}

#[test]
fn old_storage_stays_charged_while_new_storage_is() {
    let mut process = process();
    process.grow_units(Tier::Lcq, 1).unwrap();
    let index = process.units.dependencies.with_room(64);
    let larger = LargerIndex { index, bytes: 1 << 28 };
    process.grow_units_with(Tier::Lcq, 1, 0, Some(larger)).unwrap();
    let before = process.cache.usage().unwrap().metadata;
    let index = process.units.dependencies.with_room(64);
    let larger = LargerIndex { index, bytes: HARD_BYTES - (1 << 28) };
    assert!(matches!(
        process.grow_units_with(Tier::Lcq, 1, 0, Some(larger)),
        Err(Error::Capacity(_))
    ));
    assert_eq!(process.cache.usage().unwrap().metadata, before);
}

#[test]
fn a_larger_key_index_is_asked_for_where_the_index_is_full() {
    let mut process = process();
    assert_eq!(process.request_keys(0), Some(16));
    assert_eq!(process.request_keys(1), None);
    install(&mut process, key(0), 1);
    assert_eq!(process.request_keys(1), Some(16));
    assert_eq!(process.request_keys(2), None);
    assert!(process.keys.capacity() >= 16);
    let keys = process.keys.with_room(40);
    assert!(keys.capacity() >= 40);
    assert_eq!(keys.get(key(0)), process.keys.get(key(0)));
    assert!(keys.allocation_size() >= 40 * std::mem::size_of::<usize>());
    assert!(process.keys.allocation_size() > 0);
    let larger = LargerKeys { keys, bytes: 1024 };
    process.reserve_with(key(4), 1, Some(larger)).unwrap();
    assert_eq!(process.key_storage.as_ref().unwrap().bytes, 1024);
    let before = process.cache.usage().unwrap().metadata;
    let larger = LargerKeys { keys: process.keys.with_room(40), bytes: HARD_BYTES };
    assert!(matches!(process.reserve_with(key(8), 2, Some(larger)), Err(Error::Capacity(_))));
    assert_eq!(process.cache.usage().unwrap().metadata, before);
    assert!(process.reserve(key(0)).is_ok());
}

#[test]
fn a_removal_leaves_the_rest_alone() {
    let mut process = process();
    let evicted = publish(&mut process, &[0], Tier::Lcq);
    let kept = publish(&mut process, &[4], Tier::Lcq);
    let other = process.keys.get(key(4)).unwrap();
    let payload = process.slots.get(other).unwrap().payload;
    let snapshots = process.units.records.get(kept.unit).unwrap().snapshots;
    let empty = process.reserve(key(8)).unwrap().slot;
    process.request(Reason::Eviction).unwrap();
    let transition = close(&mut process);
    process.evict(&transition, evicted.unit).unwrap();
    assert!(!process.keys.contains_key(key(0)));
    assert_eq!(process.keys.get(key(4)), Some(other));
    assert_eq!(process.keys.get(key(8)), Some(empty));
    assert_eq!(process.slots.get(other).unwrap().payload, payload);
    let record = process.units.records.get(kept.unit).unwrap();
    assert!(matches!(record.lifecycle, Lifecycle::Published));
    assert_eq!((record.snapshots, record.pins), (snapshots, 0));
    process.begin_relief(&transition).unwrap();
    assert_eq!(process.keys.get(key(4)), Some(other));
    assert!(!process.keys.contains_key(key(8)));
}

#[test]
fn draining_counts_what_it_unlinks_and_renews_its_slots() {
    let mut process = process();
    let first = publish(&mut process, &[0], Tier::Lcq);
    let second = publish(&mut process, &[4], Tier::Lcq);
    let before = process.reserve(key(0)).unwrap();
    process.retire_unit(first).unwrap();
    process.retire_unit(second).unwrap();
    let issued = process.reachabilities.next_id().unwrap().get();
    let transition = close(&mut process);
    assert_eq!(process.drain_retirements(&transition), Ok(2));
    assert_eq!(process.reachabilities.next_id().unwrap().get(), issued + 3);
    let slot = process.slots.get(before.slot).unwrap();
    assert!(slot.payload.reachability() != before.reachability);
    assert!(slot.retired.is_some());
}

#[test]
fn a_vacant_segment_gives_its_backing_back_once() {
    let mut process = process();
    let unit = publish(&mut process, &[0], Tier::Lcq);
    assert_eq!(process.begin_decommit(0), Ok(None));
    process.retire_unit(unit).unwrap();
    drain(&mut process);
    for unit in process.reclaim_units().unwrap() {
        process.free_unit(unit);
    }
    let committed = process.cache.usage().unwrap().committed;
    assert_eq!(process.begin_decommit(0), Ok(Some(DecommitStep::Release)));
    assert_eq!(process.cache.usage().unwrap().committed, committed);
    process.finish_decommit(0, Ok(())).unwrap();
    assert_eq!(process.cache.usage().unwrap().committed, committed - SEGMENT_BYTES);
    assert_eq!(process.begin_decommit(0), Ok(Some(DecommitStep::Done)));
}

#[test]
fn a_slot_is_refused_exactly_where_its_key_index_does_not_fit() {
    let mut process = process();
    let larger = LargerKeys { keys: process.keys.with_room(16), bytes: HARD_BYTES };
    assert!(matches!(
        process.reserve_with(key(0), 0, Some(larger)),
        Err(Error::Capacity(_))
    ));
    assert!(!process.keys.contains_key(key(0)));
    let before = process.cache.usage().unwrap().metadata;
    let larger = LargerKeys { keys: process.keys.with_room(16), bytes: 512 };
    process.reserve_with(key(0), 0, Some(larger)).unwrap();
    assert_eq!(process.key_storage.as_ref().unwrap().bytes, 512);
    assert!(process.cache.usage().unwrap().metadata > before + 512);
    process.reserve_with(key(4), 2, None).unwrap();
    assert_eq!(process.key_storage.as_ref().unwrap().bytes, 512);
}

#[test]
fn a_unit_is_refused_exactly_where_its_index_of_pages_does_not_fit() {
    let mut process = process();
    let publications: Vec<_> = vec![process.reserve(key(0)).unwrap()];
    let unit = input(&mut process, &[0], Tier::Lcq);
    assert_eq!(unit.dependencies.len(), 1);
    let cursor = unit.cursor;
    let larger = LargerIndex { index: process.units.dependencies.with_room(16), bytes: HARD_BYTES };
    let refused = process.prepare_with_index(publications.clone(), unit, cursor, 0, Some(larger));
    let Err((unit, error)) = refused else { panic!("there is no memory") };
    assert!(matches!(error, Error::Capacity(_)));
    assert!(process.units.dependency_storage.is_none());
    let larger = LargerIndex { index: process.units.dependencies.with_room(16), bytes: 640 };
    let Ok(prepared) = process.prepare_with_index(publications, unit, cursor, 0, Some(larger))
    else {
        panic!("there is memory")
    };
    assert_eq!(process.units.dependency_storage.as_ref().unwrap().bytes, 640);
    assert!(process.units.dependencies.capacity() >= 16);
    abandon(&mut process, prepared);
    process.grow_units_with(Tier::Hcq, 1, 1, None).unwrap();
    assert_eq!(process.units.dependency_storage.as_ref().unwrap().bytes, 640);
    process.grow_units(Tier::Hcq, 1).unwrap();
    assert_eq!(process.units.dependency_storage.as_ref().unwrap().bytes, 640);
}

#[test]
fn a_page_gives_what_depends_on_it_under_every_mapping() {
    let process = process();
    let mut index = process.units.dependencies.with_room(8);
    let first = Handle { index: 1, generation: 2 };
    let second = Handle { index: 3, generation: 4 };
    index.insert(CodePageDependency { page: 7, generation: 1 }, first);
    index.insert(CodePageDependency { page: 7, generation: 2 }, first);
    index.insert(CodePageDependency { page: 7, generation: 1 }, second);
    index.insert(CodePageDependency { page: 8, generation: 1 }, second);
    let mut found = index.for_page(7);
    found.sort();
    assert_eq!(found, vec![(7, 1, 1, 2), (7, 1, 3, 4), (7, 2, 1, 2)]);
    assert_eq!(index.for_page(8), vec![(8, 1, 3, 4)]);
    assert!(index.for_page(9).is_empty());
}
