//! The owner of admission, dispatch, units and their budget.

use vstd::prelude::*;
use super::coordinator::{Coordinator, Error, Reason};
use super::directory::{Interval, Table};
use super::keys::KeyIndex;
use super::pages::DependencyIndex;
use super::registry::{Handle, Registry};
use super::unit::CodeUnit;
use crate::abi::dispatch::DispatchPayload;
use crate::abi::identity::{
    CheckedCounter, CodeUnitId, CodeVersion, ExecutionEpoch, FamilyVersion, HcqFamilyId,
    MaintenanceSequence, ReachabilityVersion,
};
use crate::abi::keys::BlockKey;
use crate::executable::cache::{Cache, MetadataLease};
use crate::executable::usage::limit_fault;
use crate::executable::{Tier, SEGMENTS};

verus! {

pub struct DispatchSlot {
    pub key: BlockKey,
    pub payload: DispatchPayload,
    pub retired: Option<ExecutionEpoch>,
    pub charge: MetadataLease,
}

/// A reader's epoch while it is inside, and zero otherwise.
pub struct Announcement {
    pub epoch: u64,
    pub charge: MetadataLease,
}

#[derive(Clone, Copy, Debug, PartialEq, Eq, Structural)]
pub enum Lifecycle {
    Published,
    Superseded,
    Invalidating,
    Unlinked,
    Retired(ExecutionEpoch),
}

/// The request that a unit's removal waits for.
#[derive(Clone, Copy, Debug, PartialEq, Eq, Structural)]
pub struct Retirement {
    pub reason: Reason,
    pub sequence: MaintenanceSequence,
}

/// A published unit. Its counts say how many snapshots and promises keep it; a
/// count at its bound stays there, so that its unit is never released too early.
pub struct UnitRecord {
    pub unit: CodeUnit,
    pub published: ExecutionEpoch,
    pub lifecycle: Lifecycle,
    /// The slot of each entry.
    pub slots: Vec<Handle>,
    pub family: Option<Handle>,
    pub retirement: Option<Retirement>,
    /// The epoch at which the unit left the directory.
    pub detached: Option<ExecutionEpoch>,
    pub detached_table: Option<Table>,
    pub snapshots: usize,
    /// Families, published or being prepared, that rely on this unit.
    pub pins: usize,
    pub charge: MetadataLease,
}

/// What is left of a unit whose record is gone.
pub struct Remains {
    pub code: CodeUnit,
    pub charge: MetadataLease,
}

impl UnitRecord {
    /// The code and its charge, which outlive the record.
    pub open spec fn remains(&self) -> Remains {
        Remains { code: self.unit, charge: self.charge }
    }
}

/// Optimized code with the units it was compiled over.
pub struct Family {
    pub id: HcqFamilyId,
    pub version: FamilyVersion,
    pub unit: Handle,
    pub baselines: Vec<Handle>,
    pub charge: MetadataLease,
}

pub struct RetiredTable {
    pub table: Table,
    pub epoch: ExecutionEpoch,
}

pub struct Units {
    pub records: Registry<UnitRecord>,
    pub families: Registry<Family>,
    pub ids: CheckedCounter<CodeUnitId>,
    pub versions: CheckedCounter<CodeVersion>,
    pub family_ids: CheckedCounter<HcqFamilyId>,
    pub family_versions: CheckedCounter<FamilyVersion>,
    /// The table of each segment.
    pub tables: Vec<Option<Table>>,
    /// Prepared units that were checked against each segment's table.
    pub borrowers: Vec<usize>,
    pub retired_tables: Vec<RetiredTable>,
    pub retired_capacity: usize,
    pub dependencies: DependencyIndex,
    pub record_storage: Option<MetadataLease>,
    pub family_storage: Option<MetadataLease>,
    pub retired_storage: Option<MetadataLease>,
    pub dependency_storage: Option<MetadataLease>,
    /// The optimizer ran out of numbers; the low tier still runs.
    pub hcq_failure: Option<Error>,
    pub decommitting: Vec<bool>,
    pub shutdown_finished: bool,
}

impl Units {
    /// The interval names an access of a unit that lies in the segment.
    pub open spec fn names_access(&self, interval: Interval, segment: int) -> bool {
        &&& self.records@.dom().contains(interval.unit)
        &&& interval.fault < self.records@[interval.unit].unit.input.faults@.len()
        &&& self.records@[interval.unit].unit.input.code.allocation.segment == segment
        &&& self.records@[interval.unit].detached is None
    }

    /// Every interval of the segment's table is attributed.
    pub open spec fn attributes(&self, segment: int) -> bool {
        self.tables@[segment] matches Some(table) ==> {
            &&& table.wf()
            &&& forall|k: int|
                0 <= k < table.intervals@.len() ==> self.names_access(
                    #[trigger] table.intervals@[k],
                    segment,
                )
        }
    }

    pub open spec fn wf(&self) -> bool {
        &&& self.records.wf()
        &&& self.families.wf()
        &&& self.tables@.len() == SEGMENTS
        &&& self.decommitting@.len() == SEGMENTS
        &&& self.borrowers@.len() == SEGMENTS
        &&& self.retired_tables@.len() <= self.retired_capacity
        &&& forall|segment: int| 0 <= segment < SEGMENTS ==> #[trigger] self.attributes(segment)
        &&& forall|unit: Handle| #[trigger]
            self.records@.dom().contains(unit) ==> self.records@[unit].slots@.len()
                == self.records@[unit].unit.input.entries@.len()
                && self.records@[unit].unit.input.code.allocation.segment < SEGMENTS
    }

    /// Every epoch that a unit or a table is stamped with is past.
    pub open spec fn stamped_before(&self, execution: int) -> bool {
        &&& forall|unit: Handle| #[trigger]
            self.records@.dom().contains(unit) ==> {
                &&& self.records@[unit].published.id() < execution
                &&& self.records@[unit].lifecycle matches Lifecycle::Retired(epoch) ==> epoch.id()
                    < execution
                &&& self.records@[unit].detached matches Some(epoch) ==> epoch.id() < execution
            }
        &&& forall|k: int|
            0 <= k < self.retired_tables@.len() ==> (#[trigger] self.retired_tables@[k]).epoch.id()
                < execution
    }
}

/// Everything that decides which code may run.
pub struct Lifetime {
    pub identity: u64,
    /// The identity of the executable cache.
    pub cache_identity: u64,
    pub core: Coordinator,
    pub slots: Registry<DispatchSlot>,
    pub keys: KeyIndex,
    pub readers: Registry<Announcement>,
    pub reachabilities: CheckedCounter<ReachabilityVersion>,
    pub slot_storage: Option<MetadataLease>,
    pub key_storage: Option<MetadataLease>,
    pub reader_storage: Option<MetadataLease>,
    pub units: Units,
    pub cache: Cache,
    /// The charge for this owner itself.
    pub storage: MetadataLease,
}

/// A slot is retired at some epoch before `execution`.
pub open spec fn retired_before(slot: DispatchSlot, execution: int) -> bool {
    slot.retired matches Some(epoch) ==> epoch.id() < execution
}

impl Lifetime {
    /// Each key names a slot of its own that is in use.
    pub open spec fn keys_resolve(&self) -> bool {
        forall|key: BlockKey| #[trigger]
            self.keys@.dom().contains(key) ==> self.slots@.dom().contains(self.keys@[key])
                && self.slots@[self.keys@[key]].retired is None
                && self.slots@[self.keys@[key]].key == key
    }

    pub open spec fn slots_stamped(&self) -> bool {
        forall|slot: Handle| #[trigger]
            self.slots@.dom().contains(slot) ==> retired_before(
                self.slots@[slot],
                self.core.execution.id() as int,
            ) && self.slots@[slot].payload.reachability_of().id() <= self.reachabilities.last()
    }

    pub open spec fn readers_stamped(&self) -> bool {
        forall|reader: Handle| #[trigger]
            self.readers@.dom().contains(reader) ==> self.readers@[reader].epoch
                <= self.core.execution.id()
    }

    /// The slots of a unit stay while the unit does.
    pub open spec fn units_keep_slots(&self) -> bool {
        forall|unit: Handle, i: int|
            #![trigger self.units.records@[unit].slots@[i]]
            self.units.records@.dom().contains(unit) && 0 <= i
                < self.units.records@[unit].slots@.len() ==> self.slots@.dom().contains(
                self.units.records@[unit].slots@[i],
            )
    }

    pub open spec fn wf(&self) -> bool {
        &&& self.core.wf()
        &&& self.slots.wf()
        &&& self.keys.wf()
        &&& self.readers.wf()
        &&& self.cache.wf()
        &&& self.units.wf()
        &&& self.keys_resolve()
        &&& self.slots_stamped()
        &&& self.readers_stamped()
        &&& self.units.stamped_before(self.core.execution.id() as int)
        &&& self.units_keep_slots()
    }

    /// Starts a process on a host that passed its check, and charges its storage.
    /// A refused start hands the cache back.
    pub fn new(
        identity: u64,
        cache_identity: u64,
        cache: Cache,
        host: Result<(), &'static str>,
    ) -> (r: Result<Lifetime, (Cache, Error)>)
        requires
            cache.wf(),
        ensures
            match r {
                Ok(process) => {
                    &&& host is Ok
                    &&& charge_fault(cache, process_bytes(), Tier::Lcq) is None
                    &&& process.wf()
                    &&& process.identity == identity
                    &&& process.cache_identity == cache_identity
                    &&& process.cache == cache.charged(process_bytes())
                    &&& process.fresh()
                },
                Err((returned, error)) => {
                    &&& returned == cache
                    &&& match host {
                        Err(detail) => error == Error::UnsupportedHost(detail),
                        Ok(_) => refused(cache, process_bytes(), Tier::Lcq, error),
                    }
                },
            },
    {
        if let Err(detail) = host {
            return Err((cache, Error::UnsupportedHost(detail)));
        }
        let mut cache = cache;
        let bytes: usize = bytes_of(1, core::mem::size_of::<Lifetime>());
        let storage = match cache.charge_metadata(bytes, Tier::Lcq) {
            Ok(storage) => storage,
            Err(error) => {
                return Err((cache, Error::from_cache(error)));
            },
        };
        Ok(Lifetime::empty(identity, cache_identity, cache, storage))
    }

    /// Nothing has been published, requested or retired.
    pub open spec fn fresh(&self) -> bool {
        &&& self.core.admitted() is Ok
        &&& self.core.admission.id() == 1
        &&& self.core.execution.id() == 1
        &&& self.core.control == 0
        &&& self.slots@.dom() == Set::<Handle>::empty()
        &&& self.keys@.dom() == Set::<BlockKey>::empty()
        &&& self.readers@.dom() == Set::<Handle>::empty()
        &&& self.units.records@.dom() == Set::<Handle>::empty()
    }

    fn empty(identity: u64, cache_identity: u64, cache: Cache, storage: MetadataLease) -> (r:
        Lifetime)
        requires
            cache.wf(),
        ensures
            r.wf(),
            r.fresh(),
            r.identity == identity,
            r.cache_identity == cache_identity,
            r.cache == cache,
    {
        Lifetime {
            identity,
            cache_identity,
            core: Coordinator::new(),
            slots: Registry::new(),
            keys: KeyIndex::with_capacity(0),
            readers: Registry::new(),
            reachabilities: CheckedCounter::default(),
            slot_storage: None,
            key_storage: None,
            reader_storage: None,
            units: Units::new(),
            cache,
            storage,
        }
    }

    /// Charges metadata that is about to be stored.
    pub fn charge(&mut self, bytes: usize, tier: Tier) -> (r: Result<MetadataLease, Error>)
        requires
            old(self).cache.wf(),
        ensures
            *final(self) == (Lifetime { cache: final(self).cache, ..*old(self) }),
            final(self).cache.wf(),
            match r {
                Ok(lease) => {
                    &&& charge_fault(old(self).cache, bytes as int, tier) is None
                    &&& lease.bytes == bytes
                    &&& final(self).cache == old(self).cache.charged(bytes as int)
                },
                Err(error) => {
                    &&& refused(old(self).cache, bytes as int, tier, error)
                    &&& final(self).cache == old(self).cache
                },
            },
    {
        match self.cache.charge_metadata(bytes, tier) {
            Ok(lease) => Ok(lease),
            Err(error) => Err(Error::from_cache(error)),
        }
    }

    /// Returns a charge whose storage is gone.
    pub fn refund(&mut self, lease: MetadataLease)
        requires
            old(self).cache.wf(),
        ensures
            *final(self) == (Lifetime { cache: final(self).cache, ..*old(self) }),
            final(self).cache.wf(),
            final(self).cache == refunded(old(self).cache, lease.bytes as int),
    {
        self.cache.release_metadata(lease);
    }

    pub fn refund_option(&mut self, lease: Option<MetadataLease>)
        requires
            old(self).cache.wf(),
        ensures
            *final(self) == (Lifetime { cache: final(self).cache, ..*old(self) }),
            final(self).cache.wf(),
            final(self).cache == refunded_option(old(self).cache, lease),
    {
        if let Some(lease) = lease {
            self.refund(lease);
        }
    }

    /// Charges all of the amounts, one after the other. Where one is refused, they are
    /// returned, and so are the `owed` bytes that were charged for the same purpose.
    pub(crate) fn charge_each(&mut self, owed: usize, bytes: &Vec<usize>, tier: Tier) -> (r: Result<
        (),
        Error,
    >)
        requires
            old(self).cache.wf(),
            owed <= old(self).cache.leased,
        ensures
            *final(self) == (Lifetime { cache: final(self).cache, ..*old(self) }),
            final(self).cache.wf(),
            match charges_fault(old(self).cache, amounts(bytes@), tier) {
                None => {
                    &&& r is Ok
                    &&& 0 <= byte_sum(amounts(bytes@))
                    &&& old(self).cache.leased + byte_sum(amounts(bytes@)) <= usize::MAX
                    &&& final(self).cache == old(self).cache.charged(byte_sum(amounts(bytes@)))
                    &&& final(self).cache.leased == old(self).cache.leased + byte_sum(
                        amounts(bytes@),
                    )
                    &&& final(self).cache.usage.metadata == old(self).cache.usage.metadata
                        + byte_sum(amounts(bytes@))
                    &&& old(self).cache.failed ==> bytes@.len() == 0
                },
                Some(fault) => {
                    &&& r matches Err(error) && reports(fault, error)
                    &&& final(self).cache == refunded(old(self).cache, owed as int)
                },
            },
    {
        let mut k: usize = 0;
        let mut sum: usize = 0;
        proof {
            assert(amounts(bytes@).take(0) =~= Seq::<int>::empty());
        }
        while k < bytes.len()
            invariant
                k <= bytes@.len(),
                self.cache.wf(),
                owed <= old(self).cache.leased,
                *self == (Lifetime { cache: self.cache, ..*old(self) }),
                sum == byte_sum(amounts(bytes@).take(k as int)),
                self.cache == old(self).cache.charged(sum as int),
                self.cache.leased == old(self).cache.leased + sum,
                self.cache.usage.metadata == old(self).cache.usage.metadata + sum,
                charges_fault(old(self).cache, amounts(bytes@).take(k as int), tier) is None,
                old(self).cache.failed ==> k == 0,
                k == 0 ==> sum == 0,
            decreases bytes@.len() - k,
        {
            let ghost before = self.cache;
            proof {
                let now = amounts(bytes@).take(k + 1);
                assert(now.drop_last() =~= amounts(bytes@).take(k as int));
                assert(now.last() == bytes@[k as int]);
            }
            match self.charge(bytes[k], tier) {
                Ok(lease) => {
                    proof {
                        lemma_charge_fits(before, bytes@[k as int] as int, tier);
                    }
                    sum = sum + lease.bytes;
                    k = k + 1;
                },
                Err(error) => {
                    self.refund(MetadataLease { bytes: owed + sum });
                    proof {
                        lemma_charges_refused(
                            old(self).cache,
                            amounts(bytes@),
                            tier,
                            k + 1,
                        );
                        assert(self.cache.usage == refunded(old(self).cache, owed as int).usage);
                    }
                    return Err(error);
                },
            }
        }
        proof {
            assert(amounts(bytes@).take(k as int) =~= amounts(bytes@));
        }
        Ok(())
    }
}

pub open spec fn amounts(bytes: Seq<usize>) -> Seq<int> {
    bytes.map_values(|amount: usize| amount as int)
}

pub open spec fn byte_sum(bytes: Seq<int>) -> int
    decreases bytes.len(),
{
    if bytes.len() == 0 {
        0
    } else {
        byte_sum(bytes.drop_last()) + bytes.last()
    }
}

/// Why the first of the amounts that is refused is refused, where each is charged
/// beside those before it.
pub open spec fn charges_fault(cache: Cache, bytes: Seq<int>, tier: Tier) -> Option<ChargeFault>
    decreases bytes.len(),
{
    if bytes.len() == 0 {
        None
    } else {
        match charges_fault(cache, bytes.drop_last(), tier) {
            Some(fault) => Some(fault),
            None => charge_fault(
                cache.charged(byte_sum(bytes.drop_last())),
                bytes.last(),
                tier,
            ),
        }
    }
}

/// What is refused of the first amounts is refused of them all.
proof fn lemma_charges_refused(cache: Cache, bytes: Seq<int>, tier: Tier, count: int)
    requires
        0 <= count <= bytes.len(),
        charges_fault(cache, bytes.take(count), tier) is Some,
    ensures
        charges_fault(cache, bytes, tier) == charges_fault(cache, bytes.take(count), tier),
    decreases bytes.len(),
{
    if count == bytes.len() {
        assert(bytes.take(count) =~= bytes);
    } else {
        assert(bytes.drop_last().take(count) =~= bytes.take(count));
        lemma_charges_refused(cache, bytes.drop_last(), tier, count);
    }
}

/// A charge that fits does not wrap.
pub(crate) proof fn lemma_charge_fits(cache: Cache, bytes: int, tier: Tier)
    requires
        cache.wf(),
        0 <= bytes,
        charge_fault(cache, bytes, tier) is None,
    ensures
        cache.charged(bytes).leased == cache.leased + bytes,
        cache.charged(bytes).usage.metadata == cache.usage.metadata + bytes,
{
    crate::executable::cache::lemma_bytes_nonnegative(cache.segments@, 0, SEGMENTS as int);
}

impl Units {
    pub fn new() -> (r: Units)
        ensures
            r.wf(),
            r.stamped_before(0),
            r.records@.dom() == Set::<Handle>::empty(),
            r.families@.dom() == Set::<Handle>::empty(),
            forall|segment: int| 0 <= segment < SEGMENTS ==> #[trigger] r.tables@[segment] is None,
            r.retired_tables@.len() == 0,
            r.hcq_failure is None,
            !r.shutdown_finished,
            r.record_storage is None,
            r.family_storage is None,
            r.retired_storage is None,
            r.dependency_storage is None,
    {
        let mut tables: Vec<Option<Table>> = Vec::new();
        let mut decommitting: Vec<bool> = Vec::new();
        let mut borrowers: Vec<usize> = Vec::new();
        let mut segment: usize = 0;
        while segment < SEGMENTS
            invariant
                segment <= SEGMENTS,
                tables@.len() == segment,
                decommitting@.len() == segment,
                borrowers@.len() == segment,
                forall|k: int| 0 <= k < segment ==> #[trigger] tables@[k] is None,
            decreases SEGMENTS - segment,
        {
            tables.push(None);
            decommitting.push(false);
            borrowers.push(0);
            segment = segment + 1;
        }
        Units {
            records: Registry::new(),
            families: Registry::new(),
            ids: CheckedCounter::default(),
            versions: CheckedCounter::default(),
            family_ids: CheckedCounter::default(),
            family_versions: CheckedCounter::default(),
            tables,
            borrowers,
            retired_tables: Vec::new(),
            retired_capacity: 0,
            dependencies: DependencyIndex::new(0),
            record_storage: None,
            family_storage: None,
            retired_storage: None,
            dependency_storage: None,
            hcq_failure: None,
            decommitting,
            shutdown_finished: false,
        }
    }
}

/// Bytes that a process is charged for itself.
pub open spec fn process_bytes() -> int {
    item_bytes(1, core::mem::size_of::<Lifetime>())
}

/// The identity of the next process, after the one issued last.
pub fn next_process(last: u64) -> (r: Result<u64, Error>)
    ensures
        match r {
            Ok(identity) => identity == last + 1,
            Err(error) => last == u64::MAX && super::coordinator::exhausted(error, "JIT process"@),
        },
{
    if last == u64::MAX {
        return Err(
            Error::Exhausted(crate::abi::identity::IdentityExhausted("JIT process")),
        );
    }
    Ok(last + 1)
}

/// Why a charge is refused.
pub ghost enum ChargeFault {
    Failed,
    Limit(Seq<char>),
    Closed,
}

pub open spec fn charge_fault(cache: Cache, bytes: int, tier: Tier) -> Option<ChargeFault> {
    if cache.failed {
        Some(ChargeFault::Failed)
    } else {
        match limit_fault(cache.usage.sum() + bytes, tier) {
            Some(text) => Some(ChargeFault::Limit(text)),
            None => if cache.open {
                None
            } else {
                Some(ChargeFault::Closed)
            },
        }
    }
}

/// The error reports the fault.
pub open spec fn reports(fault: ChargeFault, error: Error) -> bool {
    match fault {
        ChargeFault::Failed => error == Error::CacheFailed,
        ChargeFault::Limit(text) => error matches Error::Capacity(detail) && detail@ == text,
        ChargeFault::Closed => error == Error::Shutdown,
    }
}

/// The error reports why the charge is refused.
pub open spec fn refused(cache: Cache, bytes: int, tier: Tier, error: Error) -> bool {
    match charge_fault(cache, bytes, tier) {
        None => false,
        Some(fault) => reports(fault, error),
    }
}

pub open spec fn refunded(cache: Cache, bytes: int) -> Cache {
    if cache.failed {
        cache
    } else {
        cache.charged(-cache.returnable(bytes))
    }
}

pub open spec fn refunded_option(cache: Cache, lease: Option<MetadataLease>) -> Cache {
    match lease {
        Some(lease) => refunded(cache, lease.bytes as int),
        None => cache,
    }
}

/// The cache after the storage that the lease was for is gone, where it was replaced.
pub open spec fn replaced_storage(
    cache: Cache,
    full: bool,
    lease: Option<MetadataLease>,
) -> Cache {
    if full {
        refunded_option(cache, lease)
    } else {
        cache
    }
}

/// A charge that is returned at once leaves no trace.
pub proof fn lemma_refund_undoes(cache: Cache, bytes: int, tier: Tier)
    requires
        cache.wf(),
        0 <= bytes,
        charge_fault(cache, bytes, tier) is None,
    ensures
        refunded(cache.charged(bytes), bytes) == cache,
{
    let after = cache.charged(bytes);
    crate::executable::cache::lemma_bytes_nonnegative(cache.segments@, 0, SEGMENTS as int);
    assert(after.leased == cache.leased + bytes);
    assert(after.usage.metadata == cache.usage.metadata + bytes);
    assert(refunded(after, bytes).usage == cache.usage);
}

/// The next capacity of storage that is full.
pub open spec fn grown(capacity: usize) -> usize {
    if capacity > usize::MAX / 2 {
        usize::MAX
    } else if capacity < 8 {
        16
    } else {
        (2 * capacity) as usize
    }
}

pub fn grow_capacity(capacity: usize) -> (r: usize)
    ensures
        r == grown(capacity),
        r > capacity || capacity == usize::MAX,
        r >= 16,
{
    if capacity > usize::MAX / 2 {
        usize::MAX
    } else if capacity < 8 {
        16
    } else {
        2 * capacity
    }
}

/// Bytes of `count` items, or more than any budget allows.
pub open spec fn item_bytes(count: usize, item: usize) -> int {
    if count * item <= usize::MAX {
        count * item
    } else {
        usize::MAX as int
    }
}

pub fn bytes_of(count: usize, item: usize) -> (r: usize)
    ensures
        r == item_bytes(count, item),
{
    match count.checked_mul(item) {
        Some(bytes) => bytes,
        None => usize::MAX,
    }
}

/// A reference count after one more reference.
pub open spec fn count_up(count: usize) -> usize {
    if count == usize::MAX {
        count
    } else {
        (count + 1) as usize
    }
}

/// A reference count after one less.
pub open spec fn count_down(count: usize) -> usize {
    if count == usize::MAX || count == 0 {
        count
    } else {
        (count - 1) as usize
    }
}

pub fn increment(count: usize) -> (r: usize)
    ensures
        r == count_up(count),
{
    if count == usize::MAX {
        count
    } else {
        count + 1
    }
}

pub fn decrement(count: usize) -> (r: usize)
    ensures
        r == count_down(count),
{
    if count == usize::MAX || count == 0 {
        count
    } else {
        count - 1
    }
}

} // verus!
