//! The end of a process: everything that is still charged goes back.

use vstd::prelude::*;
use super::detach::segments_load;
use super::directory::Table;
use super::process::{
    refunded, Announcement, DispatchSlot, Lifetime, RetiredTable, Units,
};
use super::registry::{Handle, Registry};
use super::sums::{lemma_total_remove, total};
use super::units::lemma_refunds_add;
use crate::executable::cache::{lemma_bytes_nonnegative, Cache, MetadataLease};
use crate::executable::SEGMENTS;

verus! {

pub open spec fn lease_bytes(lease: Option<MetadataLease>) -> int {
    match lease {
        Some(lease) => lease.bytes as int,
        None => 0,
    }
}

/// What is charged for the slots.
pub open spec fn slots_load(slots: Map<Handle, DispatchSlot>) -> int {
    total(slots.dom(), |slot: Handle| slots[slot].charge.bytes as int)
}

/// What is charged for the readers.
pub open spec fn readers_load(readers: Map<Handle, Announcement>) -> int {
    total(readers.dom(), |reader: Handle| readers[reader].charge.bytes as int)
}

/// What is charged for replaced tables.
pub open spec fn retired_load(tables: Seq<RetiredTable>) -> int
    decreases tables.len(),
{
    if tables.len() == 0 {
        0
    } else {
        retired_load(tables.drop_last()) + tables.last().table.charge.bytes
    }
}

impl Units {
    /// What is charged for the lists of units, and for their tables.
    pub open spec fn lists_load(&self) -> int {
        segments_load(self.tables@, SEGMENTS as int) + retired_load(self.retired_tables@)
            + lease_bytes(self.record_storage) + lease_bytes(self.family_storage) + lease_bytes(
            self.retired_storage,
        ) + lease_bytes(self.dependency_storage)
    }
}

impl Lifetime {
    /// What is charged beside the units and the process itself.
    pub open spec fn lists_load(&self) -> int {
        slots_load(self.slots@) + readers_load(self.readers@) + self.units.lists_load()
            + lease_bytes(self.slot_storage) + lease_bytes(self.key_storage) + lease_bytes(
            self.reader_storage,
        )
    }
}

/// Charges of any number of bytes go back one by one.
fn give_back(cache: &mut Cache, lease: MetadataLease, Ghost(start): Ghost<Cache>, Ghost(bytes): Ghost<
    int,
>)
    requires
        start.wf(),
        old(cache).wf(),
        0 <= bytes,
        *old(cache) == refunded(start, bytes),
    ensures
        final(cache).wf(),
        *final(cache) == refunded(start, bytes + lease.bytes),
{
    proof {
        lemma_refunds_add(start, bytes, lease.bytes as int);
    }
    cache.release_metadata(lease);
}

fn give_back_option(
    cache: &mut Cache,
    lease: Option<MetadataLease>,
    Ghost(start): Ghost<Cache>,
    Ghost(bytes): Ghost<int>,
)
    requires
        start.wf(),
        old(cache).wf(),
        0 <= bytes,
        *old(cache) == refunded(start, bytes),
    ensures
        final(cache).wf(),
        *final(cache) == refunded(start, bytes + lease_bytes(lease)),
{
    if let Some(lease) = lease {
        give_back(cache, lease, Ghost(start), Ghost(bytes));
    }
}

fn give_back_slots(
    cache: &mut Cache,
    slots: Registry<DispatchSlot>,
    Ghost(start): Ghost<Cache>,
    Ghost(bytes): Ghost<int>,
)
    requires
        start.wf(),
        old(cache).wf(),
        slots.wf(),
        0 <= bytes,
        *old(cache) == refunded(start, bytes),
    ensures
        final(cache).wf(),
        *final(cache) == refunded(start, bytes + slots_load(slots@)),
        0 <= slots_load(slots@),
{
    let ghost all = slots@;
    let ghost weight = |slot: Handle| all[slot].charge.bytes as int;
    let mut slots = slots;
    let handles = slots.handles();
    let ghost mut back: int = 0;
    proof {
        slots.lemma_countable();
    }
    let mut k: usize = 0;
    while k < handles.len()
        invariant
            k <= handles@.len(),
            start.wf(),
            cache.wf(),
            slots.wf(),
            0 <= bytes,
            0 <= back,
            *cache == refunded(start, bytes + back),
            weight == (|slot: Handle| all[slot].charge.bytes as int),
            slots@.dom().finite(),
            slots@.dom().subset_of(all.dom()),
            back + total(slots@.dom(), weight) == total(all.dom(), weight),
            forall|h: Handle| #[trigger] slots@.dom().contains(h) ==> slots@[h] == all[h],
            forall|h: Handle| #[trigger] all.dom().contains(h) ==> handles@.contains(h),
            forall|j: int| 0 <= j < k ==> !slots@.dom().contains(#[trigger] handles@[j]),
        decreases handles@.len() - k,
    {
        let ghost before = slots@;
        if let Some(slot) = slots.remove(handles[k]) {
            proof {
                lemma_total_remove(before.dom(), weight, handles@[k as int]);
                assert(slots@.dom() =~= before.dom().remove(handles@[k as int]));
            }
            let ghost more = slot.charge.bytes as int;
            give_back(cache, slot.charge, Ghost(start), Ghost(bytes + back));
            proof {
                back = back + more;
            }
        } else {
            assert(slots@ =~= before);
        }
        k = k + 1;
    }
    proof {
        assert(slots@.dom() =~= Set::<Handle>::empty()) by {
            assert forall|h: Handle| !slots@.dom().contains(h) by {
                if slots@.dom().contains(h) {
                    let j = choose|j: int| 0 <= j < handles@.len() && handles@[j] == h;
                    assert(!slots@.dom().contains(handles@[j]));
                }
            }
        }
    }
}

fn give_back_readers(
    cache: &mut Cache,
    readers: Registry<Announcement>,
    Ghost(start): Ghost<Cache>,
    Ghost(bytes): Ghost<int>,
)
    requires
        start.wf(),
        old(cache).wf(),
        readers.wf(),
        0 <= bytes,
        *old(cache) == refunded(start, bytes),
    ensures
        final(cache).wf(),
        *final(cache) == refunded(start, bytes + readers_load(readers@)),
        0 <= readers_load(readers@),
{
    let ghost all = readers@;
    let ghost weight = |reader: Handle| all[reader].charge.bytes as int;
    let mut readers = readers;
    let handles = readers.handles();
    let ghost mut back: int = 0;
    proof {
        readers.lemma_countable();
    }
    let mut k: usize = 0;
    while k < handles.len()
        invariant
            k <= handles@.len(),
            start.wf(),
            cache.wf(),
            readers.wf(),
            0 <= bytes,
            0 <= back,
            *cache == refunded(start, bytes + back),
            weight == (|reader: Handle| all[reader].charge.bytes as int),
            readers@.dom().finite(),
            readers@.dom().subset_of(all.dom()),
            back + total(readers@.dom(), weight) == total(all.dom(), weight),
            forall|h: Handle| #[trigger] readers@.dom().contains(h) ==> readers@[h] == all[h],
            forall|h: Handle| #[trigger] all.dom().contains(h) ==> handles@.contains(h),
            forall|j: int| 0 <= j < k ==> !readers@.dom().contains(#[trigger] handles@[j]),
        decreases handles@.len() - k,
    {
        let ghost before = readers@;
        if let Some(reader) = readers.remove(handles[k]) {
            proof {
                lemma_total_remove(before.dom(), weight, handles@[k as int]);
                assert(readers@.dom() =~= before.dom().remove(handles@[k as int]));
            }
            let ghost more = reader.charge.bytes as int;
            give_back(cache, reader.charge, Ghost(start), Ghost(bytes + back));
            proof {
                back = back + more;
            }
        } else {
            assert(readers@ =~= before);
        }
        k = k + 1;
    }
    proof {
        assert(readers@.dom() =~= Set::<Handle>::empty()) by {
            assert forall|h: Handle| !readers@.dom().contains(h) by {
                if readers@.dom().contains(h) {
                    let j = choose|j: int| 0 <= j < handles@.len() && handles@[j] == h;
                    assert(!readers@.dom().contains(handles@[j]));
                }
            }
        }
    }
}

fn give_back_tables(
    cache: &mut Cache,
    tables: Vec<Option<Table>>,
    Ghost(start): Ghost<Cache>,
    Ghost(bytes): Ghost<int>,
)
    requires
        start.wf(),
        old(cache).wf(),
        0 <= bytes,
        *old(cache) == refunded(start, bytes),
    ensures
        final(cache).wf(),
        *final(cache) == refunded(start, bytes + segments_load(tables@, tables@.len() as int)),
        0 <= segments_load(tables@, tables@.len() as int),
{
    let mut k: usize = 0;
    while k < tables.len()
        invariant
            k <= tables@.len(),
            start.wf(),
            cache.wf(),
            0 <= bytes,
            0 <= segments_load(tables@, k as int),
            *cache == refunded(start, bytes + segments_load(tables@, k as int)),
        decreases tables@.len() - k,
    {
        if let Some(table) = &tables[k] {
            give_back(
                cache,
                MetadataLease { bytes: table.charge.bytes },
                Ghost(start),
                Ghost(bytes + segments_load(tables@, k as int)),
            );
        }
        k = k + 1;
    }
}

fn give_back_retired(
    cache: &mut Cache,
    tables: Vec<RetiredTable>,
    Ghost(start): Ghost<Cache>,
    Ghost(bytes): Ghost<int>,
)
    requires
        start.wf(),
        old(cache).wf(),
        0 <= bytes,
        *old(cache) == refunded(start, bytes),
    ensures
        final(cache).wf(),
        *final(cache) == refunded(start, bytes + retired_load(tables@)),
        0 <= retired_load(tables@),
{
    let mut k: usize = 0;
    proof {
        assert(tables@.take(0) =~= Seq::<RetiredTable>::empty());
    }
    while k < tables.len()
        invariant
            k <= tables@.len(),
            start.wf(),
            cache.wf(),
            0 <= bytes,
            0 <= retired_load(tables@.take(k as int)),
            *cache == refunded(start, bytes + retired_load(tables@.take(k as int))),
        decreases tables@.len() - k,
    {
        give_back(
            cache,
            MetadataLease { bytes: tables[k].table.charge.bytes },
            Ghost(start),
            Ghost(bytes + retired_load(tables@.take(k as int))),
        );
        proof {
            assert(tables@.take(k + 1).drop_last() =~= tables@.take(k as int));
            assert(tables@.take(k + 1).last() == tables@[k as int]);
        }
        k = k + 1;
    }
    proof {
        assert(tables@.take(tables@.len() as int) =~= tables@);
    }
}

/// Gives back what is charged for the lists of units, and for their tables.
pub(crate) fn give_back_units(
    cache: &mut Cache,
    units: Units,
    Ghost(start): Ghost<Cache>,
    Ghost(bytes): Ghost<int>,
)
    requires
        start.wf(),
        old(cache).wf(),
        units.tables@.len() == SEGMENTS,
        0 <= bytes,
        *old(cache) == refunded(start, bytes),
    ensures
        final(cache).wf(),
        *final(cache) == refunded(start, bytes + units.lists_load()),
        0 <= units.lists_load(),
{
    let ghost tables = segments_load(units.tables@, SEGMENTS as int);
    let ghost retired = retired_load(units.retired_tables@);
    let ghost records = lease_bytes(units.record_storage);
    let ghost families = lease_bytes(units.family_storage);
    let ghost lists = lease_bytes(units.retired_storage);
    give_back_tables(cache, units.tables, Ghost(start), Ghost(bytes));
    give_back_retired(cache, units.retired_tables, Ghost(start), Ghost(bytes + tables));
    give_back_option(
        cache,
        units.record_storage,
        Ghost(start),
        Ghost(bytes + tables + retired),
    );
    give_back_option(
        cache,
        units.family_storage,
        Ghost(start),
        Ghost(bytes + tables + retired + records),
    );
    give_back_option(
        cache,
        units.retired_storage,
        Ghost(start),
        Ghost(bytes + tables + retired + records + families),
    );
    give_back_option(
        cache,
        units.dependency_storage,
        Ghost(start),
        Ghost(bytes + tables + retired + records + families + lists),
    );
}

proof fn lemma_no_tables(tables: Seq<Option<Table>>, count: int)
    requires
        forall|k: int| 0 <= k < count ==> #[trigger] tables[k] is None,
    ensures
        segments_load(tables, count) == 0,
    decreases count,
{
    if count > 0 {
        lemma_no_tables(tables, count - 1);
        assert(tables[count - 1] is None);
    }
}

/// Nothing is charged where there is nothing.
pub(crate) proof fn lemma_nothing_charged(process: Lifetime)
    requires
        process.slots@.dom() == Set::<Handle>::empty(),
        process.readers@.dom() == Set::<Handle>::empty(),
        forall|k: int| 0 <= k < SEGMENTS ==> #[trigger] process.units.tables@[k] is None,
        process.units.retired_tables@.len() == 0,
        process.slot_storage is None,
        process.key_storage is None,
        process.reader_storage is None,
        process.units.record_storage is None,
        process.units.family_storage is None,
        process.units.retired_storage is None,
        process.units.dependency_storage is None,
    ensures
        process.lists_load() == 0,
{
    lemma_no_tables(process.units.tables@, SEGMENTS as int);
}

impl Lifetime {
    /// Empties the slots and the readers, and gives back what was charged for them.
    pub(crate) fn give_back_dispatch(&mut self, Ghost(start): Ghost<Cache>, Ghost(bytes): Ghost<int>)
        requires
            start.wf(),
            old(self).cache.wf(),
            old(self).slots.wf(),
            old(self).readers.wf(),
            0 <= bytes,
            old(self).cache == refunded(start, bytes),
        ensures
            final(self).cache.wf(),
            final(self).cache == refunded(
                start,
                bytes + (old(self).lists_load() - old(self).units.lists_load()),
            ),
            0 <= old(self).lists_load() - old(self).units.lists_load(),
            final(self).slots.wf(),
            final(self).slots@.dom() == Set::<Handle>::empty(),
            final(self).slots.charged() == 0,
            final(self).readers.wf(),
            final(self).readers@.dom() == Set::<Handle>::empty(),
            final(self).readers.charged() == 0,
            final(self).slot_storage is None,
            final(self).key_storage is None,
            final(self).reader_storage is None,
            *final(self) == (Lifetime {
                cache: final(self).cache,
                slots: final(self).slots,
                readers: final(self).readers,
                slot_storage: None,
                key_storage: None,
                reader_storage: None,
                ..*old(self)
            }),
    {
        let ghost a = slots_load(self.slots@);
        let ghost b = readers_load(self.readers@);
        let ghost c = lease_bytes(self.slot_storage);
        let ghost d = lease_bytes(self.key_storage);
        let mut slots: Registry<DispatchSlot> = Registry::new();
        core::mem::swap(&mut self.slots, &mut slots);
        let mut readers: Registry<Announcement> = Registry::new();
        core::mem::swap(&mut self.readers, &mut readers);
        give_back_slots(&mut self.cache, slots, Ghost(start), Ghost(bytes));
        give_back_readers(&mut self.cache, readers, Ghost(start), Ghost(bytes + a));
        let lease = self.slot_storage.take();
        give_back_option(&mut self.cache, lease, Ghost(start), Ghost(bytes + a + b));
        let lease = self.key_storage.take();
        give_back_option(&mut self.cache, lease, Ghost(start), Ghost(bytes + a + b + c));
        let lease = self.reader_storage.take();
        give_back_option(&mut self.cache, lease, Ghost(start), Ghost(bytes + a + b + c + d));
    }

    /// Ends a process that has no unit. Its cache comes back with every charge
    /// returned.
    pub fn dissolve(self) -> (r: Cache)
        requires
            self.wf(),
            self.units.records@.dom() == Set::<Handle>::empty(),
            self.units.families@.dom() == Set::<Handle>::empty(),
        ensures
            r.wf(),
            r == refunded(self.cache, self.lists_load() + self.storage.bytes),
    {
        let mut process = self;
        let ghost start = process.cache;
        let ghost dispatch = process.lists_load() - process.units.lists_load();
        proof {
            lemma_bytes_nonnegative(start.segments@, 0, SEGMENTS as int);
            assert(refunded(start, 0) == start);
        }
        process.give_back_dispatch(Ghost(start), Ghost(0));
        let Lifetime { mut cache, units, storage, .. } = process;
        let ghost lists = units.lists_load();
        give_back_units(&mut cache, units, Ghost(start), Ghost(dispatch));
        give_back(&mut cache, storage, Ghost(start), Ghost(dispatch + lists));
        cache
    }
}

/// The end of a process leaves the budget as it was before the process started, where
/// nothing but the process was charged meanwhile.
pub proof fn law_ending_returns_every_charge(before: Cache, process: Lifetime, after: Cache)
    requires
        before.wf(),
        !before.failed,
        process.cache == before.charged(process.lists_load() + process.storage.bytes),
        process.cache.leased == before.leased + process.lists_load() + process.storage.bytes,
        process.cache.usage.metadata == before.usage.metadata + process.lists_load()
            + process.storage.bytes,
        after == refunded(process.cache, process.lists_load() + process.storage.bytes),
    ensures
        after == before,
{
    assert(after.usage == before.usage);
}

} // verus!
