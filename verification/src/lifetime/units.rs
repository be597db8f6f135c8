//! Records of units: their states, the storage that they share, and old tables.

use vstd::prelude::*;
use super::coordinator::{exhausted, Error};
use super::process::{
    amounts, byte_sum, bytes_of, charges_fault, grow_capacity, grown, item_bytes, refunded,
    refunded_option, replaced_storage, reports, ChargeFault, Family, Lifecycle, Lifetime, Retirement, RetiredTable, UnitRecord, Units,
};
use super::keys::limited;
use super::pages::{association_bytes, DependencyIndex};
use super::registry::{Handle, Slot};
use super::unit::EmissionIdentity;
use crate::abi::identity::{CodeUnitId, CodeVersion};
use crate::executable::cache::{lemma_bytes_nonnegative, Cache, MetadataLease};
use crate::executable::{Tier, SEGMENTS};

verus! {

/// A record of the same unit in another state.
pub open spec fn same_unit(a: UnitRecord, b: UnitRecord) -> bool {
    &&& a.unit == b.unit
    &&& a.published == b.published
    &&& a.slots == b.slots
    &&& a.charge == b.charge
}

/// A larger index of pages, with the bytes that it takes.
pub struct LargerIndex {
    pub index: DependencyIndex,
    pub bytes: usize,
}

pub open spec fn larger_bytes(larger: Option<LargerIndex>) -> usize {
    match larger {
        Some(larger) => larger.bytes,
        None => 0,
    }
}

/// The capacity that a larger index is wanted for: twice the room, and no less than
/// is needed.
pub open spec fn wanted_room(needed: int, room: usize) -> int {
    if needed > grown(room) {
        needed
    } else {
        grown(room) as int
    }
}

impl Lifetime {
    /// Changes the state of a record, and nothing of its unit.
    pub(crate) fn amend(
        &mut self,
        unit: Handle,
        lifecycle: Lifecycle,
        retirement: Option<Retirement>,
        snapshots: usize,
        pins: usize,
    )
        requires
            old(self).wf(),
            old(self).units.records@.dom().contains(unit),
            lifecycle matches Lifecycle::Retired(epoch) ==> epoch.id()
                < old(self).core.execution.id(),
        ensures
            final(self).wf(),
            final(self).units.records@ == old(self).units.records@.insert(
                unit,
                UnitRecord {
                    lifecycle,
                    retirement,
                    snapshots,
                    pins,
                    ..old(self).units.records@[unit]
                },
            ),
            final(self).units.records.newest() == old(self).units.records.newest(),
            final(self).units.records.charged() == old(self).units.records.charged(),
            final(self).units.records.held() == old(self).units.records.held(),
            *final(self) == (Lifetime {
                units: Units { records: final(self).units.records, ..old(self).units },
                ..*old(self)
            }),
    {
        let record = self.units.records.get_mut(unit);
        record.lifecycle = lifecycle;
        record.retirement = retirement;
        record.snapshots = snapshots;
        record.pins = pins;
        proof {
            assert(self.units.records@.dom() =~= old(self).units.records@.dom());
            lemma_record_changed(*old(self), *self, unit);
        }
    }
}

/// A record that keeps its unit and its slots leaves everything in order.
pub(crate) proof fn lemma_record_changed(before: Lifetime, after: Lifetime, unit: Handle)
    requires
        before.wf(),
        after.units.records.wf(),
        before.units.records@.dom().contains(unit),
        after == (Lifetime {
            units: Units { records: after.units.records, ..before.units },
            ..before
        }),
        after.units.records@.dom() == before.units.records@.dom(),
        same_unit(after.units.records@[unit], before.units.records@[unit]),
        forall|other: Handle|
            other != unit && before.units.records@.dom().contains(other)
                ==> #[trigger] after.units.records@[other] == before.units.records@[other],
        after.units.records@[unit].lifecycle matches Lifecycle::Retired(epoch) ==> epoch.id()
            < before.core.execution.id(),
        after.units.records@[unit].detached == before.units.records@[unit].detached,
    ensures
        after.wf(),
{
    assert forall|segment: int| 0 <= segment < SEGMENTS implies #[trigger] after.units.attributes(
        segment,
    ) by {
        assert(before.units.attributes(segment));
        if after.units.tables@[segment] is Some {
            let table = after.units.tables@[segment]->0;
            assert forall|k: int| 0 <= k < table.intervals@.len() implies after.units.names_access(
                #[trigger] table.intervals@[k],
                segment,
            ) by {
                let other = table.intervals@[k].unit;
                assert(before.units.names_access(table.intervals@[k], segment));
                assert(before.units.records@.dom().contains(other));
                if other != unit {
                    assert(after.units.records@[other] == before.units.records@[other]);
                }
            }
        }
    }
    assert forall|other: Handle| #[trigger] after.units.records@.dom().contains(other) implies {
        &&& after.units.records@[other].slots@.len()
            == after.units.records@[other].unit.input.entries@.len()
        &&& after.units.records@[other].unit.input.code.allocation.segment < SEGMENTS
    } by {
        assert(before.units.records@.dom().contains(other));
        if other != unit {
            assert(after.units.records@[other] == before.units.records@[other]);
        }
    }
    assert forall|other: Handle| #[trigger] after.units.records@.dom().contains(other) implies {
        &&& after.units.records@[other].published.id() < after.core.execution.id()
        &&& after.units.records@[other].lifecycle matches Lifecycle::Retired(epoch) ==> epoch.id()
            < after.core.execution.id()
        &&& after.units.records@[other].detached matches Some(epoch) ==> epoch.id()
            < after.core.execution.id()
    } by {
        assert(before.units.records@.dom().contains(other));
        if other != unit {
            assert(after.units.records@[other] == before.units.records@[other]);
        }
    }
    assert forall|other: Handle, i: int|
        #![trigger after.units.records@[other].slots@[i]]
        after.units.records@.dom().contains(other) && 0 <= i
            < after.units.records@[other].slots@.len() implies after.slots@.dom().contains(
        after.units.records@[other].slots@[i],
    ) by {
        if other != unit {
            assert(after.units.records@[other] == before.units.records@[other]);
        }
        assert(before.slots@.dom().contains(before.units.records@[other].slots@[i]));
    }
}

/// A counter ran out, for a unit of this tier: the optimizer stops, or admission
/// does.
pub open spec fn publication_failed(before: Lifetime, after: Lifetime, error: Error, tier: Tier) -> bool {
    if tier == Tier::Hcq {
        &&& after.core == before.core
        &&& after.units.hcq_failure == match before.units.hcq_failure {
            Some(first) => Some(first),
            None => Some(error),
        }
    } else {
        &&& after.core == before.core.failed_with(error)
        &&& after.units.hcq_failure == before.units.hcq_failure
    }
}

impl Lifetime {
    pub(crate) fn publication_failure(&mut self, error: Error, tier: Tier)
        requires
            old(self).wf(),
        ensures
            final(self).wf(),
            publication_failed(*old(self), *final(self), error, tier),
            *final(self) == (Lifetime {
                core: final(self).core,
                units: Units { hcq_failure: final(self).units.hcq_failure, ..old(self).units },
                ..*old(self)
            }),
    {
        if tier == Tier::Hcq {
            if self.units.hcq_failure.is_none() {
                self.units.hcq_failure = Some(error);
            }
        } else {
            self.core.fail(error);
        }
        proof {
            lemma_units_alike(*old(self), *self);
        }
    }

    /// Reserves the numbers of a unit before its code is emitted.
    pub fn begin_unit(&mut self, tier: Tier) -> (r: Result<EmissionIdentity, Error>)
        requires
            old(self).wf(),
        ensures
            final(self).wf(),
            *final(self) == (Lifetime {
                core: final(self).core,
                units: Units {
                    ids: final(self).units.ids,
                    versions: final(self).units.versions,
                    hcq_failure: final(self).units.hcq_failure,
                    ..old(self).units
                },
                ..*old(self)
            }),
            match r {
                Ok(identity) => {
                    &&& old(self).core.admitted() is Ok
                    &&& tier == Tier::Hcq ==> old(self).units.hcq_failure is None
                    &&& identity.process == old(self).identity
                    &&& identity.admission == old(self).core.admission
                    &&& identity.tier == tier
                    &&& identity.id.id() == old(self).units.ids.last() + 1
                    &&& identity.version.id() == old(self).units.versions.last() + 1
                    &&& final(self).units.ids.last() == identity.id.id()
                    &&& final(self).units.versions.last() == identity.version.id()
                    &&& final(self).core == old(self).core
                    &&& final(self).units.hcq_failure == old(self).units.hcq_failure
                },
                Err(error) => match old(self).core.admitted() {
                    Err(closed) => error == closed && *final(self) == *old(self),
                    Ok(_) => if tier == Tier::Hcq && old(self).units.hcq_failure is Some {
                        error == old(self).units.hcq_failure->0 && *final(self) == *old(self)
                    } else {
                        &&& old(self).units.ids.last() == u64::MAX || old(
                            self,
                        ).units.versions.last() == u64::MAX
                        &&& exhausted(
                            error,
                            if old(self).units.ids.last() == u64::MAX {
                                "CodeUnitId"@
                            } else {
                                "CodeVersion"@
                            },
                        )
                        &&& publication_failed(*old(self), *final(self), error, tier)
                    },
                },
            },
    {
        let admission = self.core.open()?;
        if tier == Tier::Hcq {
            if let Some(error) = self.units.hcq_failure {
                return Err(error);
            }
        }
        let id: CodeUnitId = match self.units.ids.next_id() {
            Ok(id) => id,
            Err(error) => {
                let error = Error::Exhausted(error);
                proof {
                    lemma_units_alike(*old(self), *self);
                }
                self.publication_failure(error, tier);
                return Err(error);
            },
        };
        let version: CodeVersion = match self.units.versions.next_id() {
            Ok(version) => version,
            Err(error) => {
                let error = Error::Exhausted(error);
                proof {
                    lemma_units_alike(*old(self), *self);
                }
                self.publication_failure(error, tier);
                return Err(error);
            },
        };
        proof {
            lemma_units_alike(*old(self), *self);
        }
        Ok(EmissionIdentity { process: self.identity, admission, tier, id, version })
    }
}

/// Counters, storage charges and the optimizer's failure are no part of what is
/// kept in order.
pub(crate) proof fn lemma_units_alike(before: Lifetime, after: Lifetime)
    requires
        before.wf(),
        after.core.wf(),
        after.cache.wf(),
        after.core.execution.id() >= before.core.execution.id(),
        after.slots == before.slots,
        after.keys == before.keys,
        after.readers == before.readers,
        after.reachabilities.last() >= before.reachabilities.last(),
        after.units.records.wf(),
        after.units.families.wf(),
        after.units.records@ == before.units.records@,
        after.units.tables == before.units.tables,
        after.units.decommitting@.len() == SEGMENTS,
        after.units.borrowers@.len() == SEGMENTS,
        after.units.retired_tables@.len() <= after.units.retired_capacity,
        forall|k: int|
            0 <= k < after.units.retired_tables@.len() ==> (
            #[trigger] after.units.retired_tables@[k]).epoch.id() < after.core.execution.id(),
    ensures
        after.wf(),
{
    assert forall|segment: int| 0 <= segment < SEGMENTS implies #[trigger] after.units.attributes(
        segment,
    ) by {
        assert(before.units.attributes(segment));
        if after.units.tables@[segment] is Some {
            let table = after.units.tables@[segment]->0;
            assert forall|k: int| 0 <= k < table.intervals@.len() implies after.units.names_access(
                #[trigger] table.intervals@[k],
                segment,
            ) by {
                assert(before.units.names_access(table.intervals@[k], segment));
            }
        }
    }
    assert forall|slot: Handle| #[trigger] after.slots@.dom().contains(
        slot,
    ) implies super::process::retired_before(
        after.slots@[slot],
        after.core.execution.id() as int,
    ) && after.slots@[slot].payload.reachability_of().id() <= after.reachabilities.last() by {
        assert(before.slots@.dom().contains(slot));
    }
}

impl Lifetime {
    /// What the tables among these are charged that no reader can be using.
    pub open spec fn idle_bytes(&self, tables: Seq<RetiredTable>) -> int
        decreases tables.len(),
    {
        if tables.len() == 0 {
            0
        } else {
            self.idle_bytes(tables.drop_last()) + self.idle_charge(tables.last())
        }
    }

    pub open spec fn idle_charge(&self, retired: RetiredTable) -> int {
        if self.quiescent_at(retired.epoch.id()) {
            retired.table.charge.bytes as int
        } else {
            0
        }
    }

    /// The cache once those tables are gone.
    pub open spec fn collected_cache(&self) -> Cache {
        refunded(self.cache, self.idle_bytes(self.units.retired_tables@))
    }

    /// The tables that no reader can be using are gone, and nothing else is.
    pub open spec fn cleared(&self, after: Lifetime) -> bool {
        &&& after == (Lifetime {
            units: Units { retired_tables: after.units.retired_tables, ..self.units },
            cache: self.collected_cache(),
            ..*self
        })
        &&& forall|k: int|
            0 <= k < after.units.retired_tables@.len() ==> self.units.retired_tables@.contains(
                #[trigger] after.units.retired_tables@[k],
            ) && !self.quiescent_at(after.units.retired_tables@[k].epoch.id())
        &&& forall|k: int|
            0 <= k < self.units.retired_tables@.len() && !self.quiescent_at(
                (#[trigger] self.units.retired_tables@[k]).epoch.id(),
            ) ==> after.units.retired_tables@.contains(self.units.retired_tables@[k])
    }

    pub(crate) proof fn lemma_idle_nonnegative(&self, tables: Seq<RetiredTable>)
        ensures
            0 <= self.idle_bytes(tables),
        decreases tables.len(),
    {
        if tables.len() != 0 {
            self.lemma_idle_nonnegative(tables.drop_last());
        }
    }

    proof fn lemma_idle_update(&self, tables: Seq<RetiredTable>, k: int, other: RetiredTable)
        requires
            0 <= k < tables.len(),
        ensures
            self.idle_bytes(tables.update(k, other)) == self.idle_bytes(tables) - self.idle_charge(
                tables[k],
            ) + self.idle_charge(other),
        decreases tables.len(),
    {
        let shorter = tables.drop_last();
        let changed = tables.update(k, other);
        if k < shorter.len() {
            self.lemma_idle_update(shorter, k, other);
            assert(changed.drop_last() =~= shorter.update(k, other));
        } else {
            assert(changed.drop_last() =~= shorter);
        }
    }

    pub(crate) proof fn lemma_nothing_idle(&self, tables: Seq<RetiredTable>)
        requires
            forall|k: int|
                0 <= k < tables.len() ==> !self.quiescent_at((#[trigger] tables[k]).epoch.id()),
        ensures
            self.idle_bytes(tables) == 0,
        decreases tables.len(),
    {
        if tables.len() > 0 {
            self.lemma_nothing_idle(tables.drop_last());
        }
    }

    /// Taking one table out, with the last in its place, takes its charge out.
    proof fn lemma_idle_removed(&self, tables: Seq<RetiredTable>, k: int)
        requires
            0 <= k < tables.len(),
        ensures
            self.idle_bytes(tables.update(k, tables.last()).drop_last()) == self.idle_bytes(tables)
                - self.idle_charge(tables[k]),
    {
        let shorter = tables.drop_last();
        if k < shorter.len() {
            self.lemma_idle_update(shorter, k, tables.last());
            assert(tables.update(k, tables.last()).drop_last() =~= shorter.update(
                k,
                tables.last(),
            ));
        } else {
            assert(tables.update(k, tables.last()).drop_last() =~= shorter);
        }
    }
}

/// Two returns are one.
pub(crate) proof fn lemma_refunds_add(cache: Cache, a: int, b: int)
    requires
        cache.wf(),
        0 <= a,
        0 <= b,
    ensures
        refunded(refunded(cache, a), b) == refunded(cache, a + b),
{
    lemma_bytes_nonnegative(cache.segments@, 0, SEGMENTS as int);
    if !cache.failed {
        let once = refunded(cache, a);
        let back = cache.returnable(a);
        assert(once.leased == cache.leased - back);
        assert(once.usage.metadata == cache.usage.metadata - back);
    }
}

/// Charges were returned, and nothing else of the cache changed.
pub open spec fn only_refunded(before: Cache, after: Cache) -> bool {
    exists|bytes: int| 0 <= bytes && after == #[trigger] refunded(before, bytes)
}

pub(crate) proof fn lemma_refunded_nothing(cache: Cache)
    requires
        cache.wf(),
    ensures
        only_refunded(cache, cache),
        refunded(cache, 0) == cache,
{
    lemma_bytes_nonnegative(cache.segments@, 0, SEGMENTS as int);
    assert(refunded(cache, 0) == cache);
}

pub(crate) proof fn lemma_refunded_step(first: Cache, second: Cache, third: Cache)
    requires
        first.wf(),
        second.wf(),
        only_refunded(first, second),
        third == second || only_refunded(second, third) || exists|bytes: usize|
            third == #[trigger] refunded(second, bytes as int),
    ensures
        only_refunded(first, third),
{
    if third != second {
        let a = choose|bytes: int| 0 <= bytes && second == #[trigger] refunded(first, bytes);
        if only_refunded(second, third) {
            let b = choose|bytes: int| 0 <= bytes && third == #[trigger] refunded(second, bytes);
            lemma_refunds_add(first, a, b);
        } else {
            let b = choose|bytes: usize| third == #[trigger] refunded(second, bytes as int);
            lemma_refunds_add(first, a, b as int);
        }
        assert(only_refunded(first, third));
    }
}

impl Lifetime {
    /// Frees the replaced tables that no reader can be using, and says how many.
    pub fn collect_tables(&mut self) -> (r: Result<usize, Error>)
        requires
            old(self).wf(),
        ensures
            final(self).wf(),
            *final(self) == (Lifetime {
                units: Units { retired_tables: final(self).units.retired_tables, ..old(self).units },
                cache: final(self).cache,
                ..*old(self)
            }),
            match r {
                Ok(count) => {
                    &&& old(self).core.failure is None
                    &&& old(self).cleared(*final(self))
                    &&& final(self).units.retired_tables@.len() + count == old(
                        self,
                    ).units.retired_tables@.len()
                },
                Err(error) => old(self).core.failure == Some(error) && *final(self) == *old(self),
            },
    {
        self.core.healthy()?;
        let mut count: usize = 0;
        let mut k: usize = 0;
        let ghost mut returned: int = 0;
        proof {
            lemma_bytes_nonnegative(self.cache.segments@, 0, SEGMENTS as int);
            assert(refunded(self.cache, 0) == self.cache);
        }
        while k < self.units.retired_tables.len()
            invariant
                old(self).wf(),
                self.wf(),
                0 <= returned,
                self.cache == refunded(old(self).cache, returned),
                returned + old(self).idle_bytes(self.units.retired_tables@) == old(self).idle_bytes(
                    old(self).units.retired_tables@,
                ),
                *self == (Lifetime {
                    units: Units { retired_tables: self.units.retired_tables, ..old(self).units },
                    cache: self.cache,
                    ..*old(self)
                }),
                k <= self.units.retired_tables@.len(),
                self.units.retired_tables@.len() + count == old(self).units.retired_tables@.len(),
                forall|j: int|
                    0 <= j < self.units.retired_tables@.len() ==> old(
                        self,
                    ).units.retired_tables@.contains(#[trigger] self.units.retired_tables@[j]),
                forall|j: int|
                    0 <= j < k ==> !old(self).quiescent_at(
                        (#[trigger] self.units.retired_tables@[j]).epoch.id(),
                    ),
                forall|j: int|
                    0 <= j < old(self).units.retired_tables@.len() && !old(self).quiescent_at(
                        (#[trigger] old(self).units.retired_tables@[j]).epoch.id(),
                    ) ==> self.units.retired_tables@.contains(old(self).units.retired_tables@[j]),
            decreases self.units.retired_tables@.len() - k,
        {
            let epoch = self.units.retired_tables[k].epoch;
            let ghost before = *self;
            let ghost tables = self.units.retired_tables@;
            proof {
                assert(self.quiescent_at(epoch.id()) == old(self).quiescent_at(epoch.id()));
            }
            if self.quiescent(epoch) {
                let gone = self.units.retired_tables.swap_remove(k);
                let ghost bytes = gone.table.charge.bytes as int;
                self.refund(gone.table.charge);
                count = count + 1;
                proof {
                    let now = self.units.retired_tables@;
                    old(self).lemma_idle_removed(tables, k as int);
                    assert(now =~= tables.update(k as int, tables.last()).drop_last());
                    lemma_refunds_add(old(self).cache, returned, bytes);
                    returned = returned + bytes;
                    assert forall|j: int| 0 <= j < now.len() implies tables.contains(
                        #[trigger] now[j],
                    ) by {
                        if j == k {
                            assert(now[j] == tables[tables.len() - 1]);
                        } else {
                            assert(now[j] == tables[j]);
                        }
                    }
                    assert forall|j: int| 0 <= j < now.len() implies old(
                        self,
                    ).units.retired_tables@.contains(#[trigger] now[j]) && now[j].epoch.id()
                        < self.core.execution.id() by {
                        let i = choose|i: int| 0 <= i < tables.len() && tables[i] == now[j];
                        assert(old(self).units.retired_tables@.contains(tables[i]));
                    }
                    assert forall|j: int|
                        0 <= j < old(self).units.retired_tables@.len() && !old(self).quiescent_at(
                            (#[trigger] old(self).units.retired_tables@[j]).epoch.id(),
                        ) implies now.contains(old(self).units.retired_tables@[j]) by {
                        let kept = old(self).units.retired_tables@[j];
                        let i = choose|i: int| 0 <= i < tables.len() && tables[i] == kept;
                        assert(i != k);
                        if i == tables.len() - 1 {
                            assert(now[k as int] == kept);
                        } else {
                            assert(now[i] == kept);
                        }
                    }
                    lemma_units_alike(before, *self);
                }
            } else {
                k = k + 1;
            }
        }
        proof {
            old(self).lemma_nothing_idle(self.units.retired_tables@);
        }
        Ok(count)
    }

    /// The index of pages has room for so many associations.
    pub open spec fn page_room(&self, room: usize) -> bool {
        self.units.dependencies@.len() <= room && self.units.dependencies.limit() <= room
    }

    /// `pages` more associations do not fit.
    pub open spec fn index_full(&self, room: usize, pages: int) -> bool {
        self.units.dependencies@.len() + pages > room
    }

    /// A larger index with the same associations is at hand where one is needed.
    pub open spec fn index_ready(&self, room: usize, pages: int, larger: Option<LargerIndex>) -> bool {
        self.index_full(room, pages) && self.units.dependencies@.len() + pages <= usize::MAX ==> (
        larger matches Some(larger) && larger.index@ == self.units.dependencies@)
    }

    /// What the hash table of the index may offer: room for what it holds and was made
    /// for, and where that does not suffice a larger one that is made for more and takes
    /// no fewer bytes than that.
    pub open spec fn index_offer(&self, room: usize, pages: int, larger: Option<LargerIndex>) -> bool {
        &&& self.page_room(room)
        &&& match larger {
            Some(larger) => {
                &&& self.index_full(room, pages)
                &&& larger.index@ == self.units.dependencies@
                &&& larger.index.limit() == limited(
                    wanted_room(self.units.dependencies@.len() + pages, room),
                )
                &&& larger.index.limit() * association_bytes() <= larger.bytes
                &&& larger.index@.len() * association_bytes() <= larger.bytes
            },
            None => !self.index_full(room, pages) || self.units.dependencies@.len() + pages
                > usize::MAX,
        }
    }

    /// There is no room for one more family in the tier that has them.
    pub open spec fn families_full(&self, tier: Tier) -> bool {
        tier == Tier::Hcq && !self.units.families.space()
    }

    /// There is no room for one more replaced table.
    pub open spec fn retired_full(&self) -> bool {
        self.units.retired_tables@.len() >= self.units.retired_capacity
    }

    /// One more unit with `pages` pages needs storage, where the index of pages has
    /// `room`.
    pub open spec fn storage_full(&self, room: usize, pages: int, tier: Tier) -> bool {
        ||| !self.units.records.space()
        ||| self.families_full(tier)
        ||| self.retired_full()
        ||| self.index_full(room, pages)
    }

    /// What is charged for storage of one more unit: records, families, replaced
    /// tables and the index of pages, each where there is no room. A larger index takes
    /// `bytes`.
    pub open spec fn storage_charges(&self, room: usize, bytes: usize, pages: int, tier: Tier) -> Seq<
        int,
    > {
        seq![
            if !self.units.records.space() {
                item_bytes(
                    grown(self.units.records.charged()),
                    core::mem::size_of::<Slot<UnitRecord>>(),
                )
            } else {
                0
            },
            if self.families_full(tier) {
                item_bytes(
                    grown(self.units.families.charged()),
                    core::mem::size_of::<Slot<Family>>(),
                )
            } else {
                0
            },
            if self.retired_full() {
                item_bytes(
                    grown(self.units.retired_capacity),
                    core::mem::size_of::<RetiredTable>(),
                )
            } else {
                0
            },
            if self.index_full(room, pages) {
                bytes as int
            } else {
                0
            },
        ]
    }

    /// What storage for one more unit makes of the cache: all of it is charged beside
    /// what is there, and then the storage that was replaced is returned.
    pub open spec fn storage_growth(&self, room: usize, bytes: usize, pages: int, tier: Tier) -> Result<
        Cache,
        ChargeFault,
    > {
        let charges = self.storage_charges(room, bytes, pages, tier);
        if !self.storage_full(room, pages, tier) {
            Ok(self.cache)
        } else {
            match charges_fault(self.cache, charges, tier) {
                Some(fault) => Err(fault),
                None => Ok(
                    replaced_storage(
                        replaced_storage(
                            replaced_storage(
                                replaced_storage(
                                    self.cache.charged(byte_sum(charges)),
                                    self.index_full(room, pages),
                                    self.units.dependency_storage,
                                ),
                                !self.units.records.space(),
                                self.units.record_storage,
                            ),
                            self.families_full(tier),
                            self.units.family_storage,
                        ),
                        self.retired_full(),
                        self.units.retired_storage,
                    ),
                ),
            }
        }
    }

    /// Each storage is the one that was charged, where there was no room.
    pub open spec fn storage_replaced(
        &self,
        after: Lifetime,
        room: usize,
        bytes: usize,
        pages: int,
        tier: Tier,
    ) -> bool {
        let charges = self.storage_charges(room, bytes, pages, tier);
        &&& after.units.record_storage == if self.units.records.space() {
            self.units.record_storage
        } else {
            Some(MetadataLease { bytes: charges[0] as usize })
        }
        &&& after.units.family_storage == if self.families_full(tier) {
            Some(MetadataLease { bytes: charges[1] as usize })
        } else {
            self.units.family_storage
        }
        &&& after.units.retired_storage == if self.retired_full() {
            Some(MetadataLease { bytes: charges[2] as usize })
        } else {
            self.units.retired_storage
        }
        &&& after.units.retired_capacity == if self.retired_full() {
            grown(self.units.retired_capacity)
        } else {
            self.units.retired_capacity
        }
        &&& after.units.dependency_storage == if self.index_full(room, pages) {
            Some(MetadataLease { bytes })
        } else {
            self.units.dependency_storage
        }
    }

    /// The capacity to ask of a larger index of pages, where the index has `room` and
    /// `dependencies` more do not fit in.
    pub fn request_index(&self, dependencies: usize, room: usize) -> (r: Result<
        Option<usize>,
        Error,
    >)
        ensures
            if self.units.dependencies@.len() + dependencies > usize::MAX {
                r matches Err(Error::Capacity(detail)) && detail@
                    == "dependency index size overflow"@
            } else {
                r == Ok::<Option<usize>, Error>(
                    if self.index_full(room, dependencies as int) {
                        Some(
                            wanted_room(
                                self.units.dependencies@.len() + dependencies,
                                room,
                            ) as usize,
                        )
                    } else {
                        None
                    },
                )
            },
    {
        let needed: usize = match self.units.dependencies.len().checked_add(dependencies) {
            Some(needed) => needed,
            None => {
                return Err(Error::Capacity("dependency index size overflow"));
            },
        };
        if needed <= room {
            return Ok(None);
        }
        let doubled: usize = grow_capacity(room);
        Ok(
            Some(
                if needed > doubled {
                    needed
                } else {
                    doubled
                },
            ),
        )
    }

    /// Takes over a larger index of pages, which is charged.
    fn adopt_index(&mut self, larger: LargerIndex)
        requires
            old(self).wf(),
        ensures
            final(self).wf(),
            *final(self) == (Lifetime {
                units: Units {
                    dependencies: larger.index,
                    dependency_storage: Some(MetadataLease { bytes: larger.bytes }),
                    ..old(self).units
                },
                cache: refunded_option(old(self).cache, old(self).units.dependency_storage),
                ..*old(self)
            }),
    {
        self.units.dependencies = larger.index;
        let before = self.units.dependency_storage.take();
        self.units.dependency_storage = Some(MetadataLease { bytes: larger.bytes });
        self.refund_option(before);
        proof {
            lemma_units_alike(*old(self), *self);
        }
    }

    /// The room of the index of pages, and a larger one where `dependencies` more do
    /// not fit in.
    pub fn offer_index(&self, dependencies: usize) -> (r: (usize, Option<LargerIndex>))
        ensures
            self.index_offer(r.0, dependencies as int, r.1),
    {
        let room: usize = self.units.dependencies.capacity();
        match self.request_index(dependencies, room) {
            Ok(Some(capacity)) => {
                let index = self.units.dependencies.with_room(capacity);
                let bytes: usize = index.allocation_size();
                (room, Some(LargerIndex { index, bytes }))
            },
            _ => (room, None),
        }
    }

    /// Takes over larger storage of records, which is charged.
    fn adopt_records(&mut self, capacity: usize, bytes: usize)
        requires
            old(self).wf(),
            capacity > old(self).units.records.charged() || capacity == usize::MAX,
        ensures
            final(self).wf(),
            *final(self) == (Lifetime {
                units: Units {
                    records: final(self).units.records,
                    record_storage: Some(MetadataLease { bytes }),
                    ..old(self).units
                },
                cache: refunded_option(old(self).cache, old(self).units.record_storage),
                ..*old(self)
            }),
            final(self).units.records@ == old(self).units.records@,
            final(self).units.records.newest() == old(self).units.records.newest(),
            final(self).units.records.space() || final(self).units.records.charged()
                == usize::MAX,
    {
        self.units.records.grow(capacity);
        let before = self.units.record_storage.take();
        self.units.record_storage = Some(MetadataLease { bytes });
        self.refund_option(before);
        proof {
            lemma_units_alike(*old(self), *self);
        }
    }

    /// Takes over larger storage of families, which is charged.
    fn adopt_families(&mut self, capacity: usize, bytes: usize)
        requires
            old(self).wf(),
            capacity > old(self).units.families.charged() || capacity == usize::MAX,
        ensures
            final(self).wf(),
            *final(self) == (Lifetime {
                units: Units {
                    families: final(self).units.families,
                    family_storage: Some(MetadataLease { bytes }),
                    ..old(self).units
                },
                cache: refunded_option(old(self).cache, old(self).units.family_storage),
                ..*old(self)
            }),
            final(self).units.families@ == old(self).units.families@,
            final(self).units.families.newest() == old(self).units.families.newest(),
            final(self).units.families.space() || final(self).units.families.charged()
                == usize::MAX,
    {
        self.units.families.grow(capacity);
        let before = self.units.family_storage.take();
        self.units.family_storage = Some(MetadataLease { bytes });
        self.refund_option(before);
        proof {
            lemma_units_alike(*old(self), *self);
        }
    }

    /// Takes over a larger list of replaced tables, which is charged.
    fn adopt_retired(&mut self, capacity: usize, bytes: usize)
        requires
            old(self).wf(),
            capacity > old(self).units.retired_capacity || capacity == usize::MAX,
        ensures
            final(self).wf(),
            *final(self) == (Lifetime {
                units: Units {
                    retired_capacity: capacity,
                    retired_storage: Some(MetadataLease { bytes }),
                    ..old(self).units
                },
                cache: refunded_option(old(self).cache, old(self).units.retired_storage),
                ..*old(self)
            }),
    {
        self.units.retired_capacity = capacity;
        let before = self.units.retired_storage.take();
        self.units.retired_storage = Some(MetadataLease { bytes });
        self.refund_option(before);
        proof {
            lemma_units_alike(*old(self), *self);
        }
    }

    /// Storage for one more unit of the tier with `dependencies` pages, charged
    /// before it is used. What is there stays.
    pub fn grow_units(&mut self, tier: Tier, dependencies: usize) -> (r: Result<(), Error>)
        requires
            old(self).wf(),
        ensures
            final(self).wf(),
            exists|room: usize, larger: Option<LargerIndex>| #[trigger]
                old(self).index_offer(room, dependencies as int, larger) && grows_units(
                    *old(self),
                    *final(self),
                    tier,
                    dependencies,
                    room,
                    larger,
                    refusal_of(r),
                ),
    {
        let (room, larger) = self.offer_index(dependencies);
        assert(self.index_offer(room, dependencies as int, larger));
        self.grow_units_with(tier, dependencies, room, larger)
    }

    /// The same, where the index of pages has `room` and a larger one is at hand.
    pub fn grow_units_with(
        &mut self,
        tier: Tier,
        dependencies: usize,
        room: usize,
        larger: Option<LargerIndex>,
    ) -> (r: Result<(), Error>)
        requires
            old(self).wf(),
            old(self).index_ready(room, dependencies as int, larger),
        ensures
            final(self).wf(),
            grows_units(
                *old(self),
                *final(self),
                tier,
                dependencies,
                room,
                larger,
                refusal_of(r),
            ),
    {
        self.core.open()?;
        let wanted: bool = self.request_index(dependencies, room)?.is_some();
        let few_records: bool = !self.units.records.has_space();
        let few_families: bool = tier == Tier::Hcq && !self.units.families.has_space();
        let few_retired: bool = self.units.retired_tables.len() >= self.units.retired_capacity;
        if !few_records && !few_families && !few_retired && !wanted {
            return Ok(());
        }
        let records: usize = grow_capacity(self.units.records.capacity());
        let record_bytes: usize = if few_records {
            bytes_of(records, core::mem::size_of::<Slot<UnitRecord>>())
        } else {
            0
        };
        let families: usize = grow_capacity(self.units.families.capacity());
        let family_bytes: usize = if few_families {
            bytes_of(families, core::mem::size_of::<Slot<Family>>())
        } else {
            0
        };
        let retired: usize = grow_capacity(self.units.retired_capacity);
        let retired_bytes: usize = if few_retired {
            bytes_of(retired, core::mem::size_of::<RetiredTable>())
        } else {
            0
        };
        let index_bytes: usize = match &larger {
            Some(larger) if wanted => larger.bytes,
            _ => 0,
        };
        let mut bytes: Vec<usize> = Vec::new();
        bytes.push(record_bytes);
        bytes.push(family_bytes);
        bytes.push(retired_bytes);
        bytes.push(index_bytes);
        proof {
            assert(amounts(bytes@) =~= old(self).storage_charges(
                room,
                larger_bytes(larger),
                dependencies as int,
                tier,
            ));
            lemma_refunded_nothing(old(self).cache);
        }
        self.charge_each(0, &bytes, tier)?;
        proof {
            lemma_units_alike(*old(self), *self);
        }
        if wanted {
            if let Some(larger) = larger {
                self.adopt_index(larger);
            }
        }
        if few_records {
            self.adopt_records(records, record_bytes);
        }
        if few_families {
            self.adopt_families(families, family_bytes);
        }
        if few_retired {
            self.adopt_retired(retired, retired_bytes);
        }
        Ok(())
    }
}

pub open spec fn refusal_of(r: Result<(), Error>) -> Option<Error> {
    match r {
        Ok(_) => None,
        Err(error) => Some(error),
    }
}

/// What storage for one more unit changes, and when it is refused.
pub open spec fn grows_units(
    before: Lifetime,
    after: Lifetime,
    tier: Tier,
    dependencies: usize,
    room: usize,
    larger: Option<LargerIndex>,
    refusal: Option<Error>,
) -> bool {
    &&& after == (Lifetime { units: after.units, cache: after.cache, ..before })
    &&& after.units == (Units {
        records: after.units.records,
        families: after.units.families,
        dependencies: after.units.dependencies,
        retired_capacity: after.units.retired_capacity,
        record_storage: after.units.record_storage,
        family_storage: after.units.family_storage,
        retired_storage: after.units.retired_storage,
        dependency_storage: after.units.dependency_storage,
        ..before.units
    })
    &&& after.units.records@ == before.units.records@
    &&& after.units.families@ == before.units.families@
    &&& after.units.dependencies@ == before.units.dependencies@
    &&& after.units.records.newest() == before.units.records.newest()
    &&& after.units.families.newest() == before.units.families.newest()
    &&& match before.core.admitted() {
        Err(closed) => refusal == Some(closed) && after == before,
        Ok(_) => if before.units.dependencies@.len() + dependencies > usize::MAX {
            &&& refusal matches Some(Error::Capacity(detail)) && detail@
                == "dependency index size overflow"@
            &&& after == before
        } else {
            match before.storage_growth(room, larger_bytes(larger), dependencies as int, tier) {
                Ok(cache) => {
                    &&& refusal is None
                    &&& after.cache == cache
                    &&& after.units.dependencies == if before.index_full(
                        room,
                        dependencies as int,
                    ) {
                        larger->0.index
                    } else {
                        before.units.dependencies
                    }
                    &&& before.storage_replaced(
                        after,
                        room,
                        larger_bytes(larger),
                        dependencies as int,
                        tier,
                    )
                    &&& after.units.records.space() || after.units.records.charged() == usize::MAX
                    &&& tier == Tier::Hcq ==> after.units.families.space()
                        || after.units.families.charged() == usize::MAX
                    &&& after.units.retired_tables@.len() < after.units.retired_capacity
                        || after.units.retired_capacity == usize::MAX
                },
                Err(fault) => {
                    &&& refusal matches Some(error) && reports(fault, error)
                    &&& after == before
                },
            }
        },
    }
}

} // verus!
