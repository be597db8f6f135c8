//! Retired units leave the directory of faults.

use vstd::prelude::*;
use super::coordinator::{exhausted, Coordinator, Error, Phase};
use super::directory::{ordered, without_unit, Interval, Table};
use super::prepare::{list_bytes, list_size};
use super::process::{
    charge_fault, refunded, reports, ChargeFault, Lifecycle, Lifetime, UnitRecord, Units,
};
use super::registry::Handle;
use super::sums::{lemma_total_alike, lemma_total_remove, total};
use super::units::{lemma_units_alike, same_unit};
use crate::abi::identity::Identity;
use crate::executable::cache::{Cache, MetadataLease};
use crate::executable::{Tier, SEGMENTS};

verus! {

/// How a unit leaves the directory, when there is no memory for that, and when it
/// is refused.
#[verifier::opaque]
pub open spec fn leaves_directory(
    before: Lifetime,
    after: Lifetime,
    unit: Handle,
    r: Result<bool, Error>,
) -> bool {
    let fault = charge_fault(before.cache, before.rest_bytes(unit), Tier::Lcq);
    match r {
        Ok(true) => {
            &&& before.needs_table(unit) ==> fault is None
            &&& after.cache == before.table_charged(unit)
            &&& after.units.records@ == before.units.records@.insert(
                unit,
                before.detached_record(unit, before.table_left(unit)),
            )
            &&& before.table_follows(unit, after.units.tables@[before.segment_of(unit)])
        },
        Ok(false) => before.needs_table(unit) && fault matches Some(ChargeFault::Limit(_)),
        Err(error) => {
            ||| {
                &&& before.needs_table(unit)
                &&& fault matches Some(fault) && !(fault is Limit) && reports(fault, error)
                &&& after == before
            }
            ||| {
                &&& before.needs_table(unit) ==> fault is None
                &&& exhausted(error, "ExecutionEpoch"@)
                &&& before.core.executions.last() == u64::MAX
                &&& after.cache == refunded(
                    before.table_charged(unit),
                    if before.needs_table(unit) {
                        before.rest_bytes(unit)
                    } else {
                        0
                    },
                )
            }
        },
    }
}

/// What is charged for the table that left the directory with the unit.
pub open spec fn left_charge(record: UnitRecord) -> int {
    match (record.detached, record.detached_table) {
        (Some(_), Some(table)) => table.charge.bytes as int,
        _ => 0,
    }
}

/// What is charged for the tables of the first `count` segments.
pub open spec fn segments_load(tables: Seq<Option<Table>>, count: int) -> int
    decreases count,
{
    if count <= 0 {
        0
    } else {
        segments_load(tables, count - 1) + match tables[count - 1] {
            Some(table) => table.charge.bytes as int,
            None => 0,
        }
    }
}

impl Lifetime {
    pub open spec fn detached_charge(&self) -> spec_fn(Handle) -> int {
        |unit: Handle| left_charge(self.units.records@[unit])
    }

    /// What is charged for the tables in use, and for those that units took with
    /// them.
    pub open spec fn table_load(&self) -> int {
        segments_load(self.units.tables@, SEGMENTS as int) + total(
            self.units.records@.dom(),
            self.detached_charge(),
        )
    }

    /// The units that can leave the directory.
    pub open spec fn leaving(&self) -> Set<Handle> {
        Set::new(|unit: Handle| self.detachable(unit))
    }

    /// There is no memory to let the unit leave the directory.
    pub open spec fn no_room_to_leave(&self, unit: Handle, cache: Cache) -> bool {
        &&& self.detachable(unit)
        &&& self.needs_table(unit)
        &&& charge_fault(cache, self.rest_bytes(unit), Tier::Lcq) matches Some(
            ChargeFault::Limit(_),
        )
    }

    /// No unit can leave the directory any more, but for want of memory.
    pub open spec fn swept(&self, cache: Cache) -> bool {
        ||| forall|unit: Handle| !#[trigger] self.detachable(unit)
        ||| exists|unit: Handle| #[trigger] self.no_room_to_leave(unit, cache)
    }

    /// Admission is closed, no reader is inside and no prepared unit was checked
    /// against a table: tables may change in place.
    pub open spec fn still(&self) -> bool {
        &&& self.core.phase is Closed
        &&& self.idle_now()
        &&& forall|segment: int|
            0 <= segment < SEGMENTS ==> #[trigger] self.units.borrowers@[segment] == 0
    }

    /// No snapshot and no promise keeps the unit.
    pub open spec fn unreferenced(&self, unit: Handle) -> bool {
        self.units.records@[unit].snapshots == 0 && self.units.records@[unit].pins == 0
    }

    /// The unit left dispatch so long ago that no reader can be running it.
    pub open spec fn detachable(&self, unit: Handle) -> bool {
        &&& self.units.records@.dom().contains(unit)
        &&& self.units.records@[unit].lifecycle matches Lifecycle::Retired(epoch)
        &&& self.quiescent_at(epoch.id())
        &&& self.units.records@[unit].detached is None
        &&& self.unreferenced(unit)
    }

    fn can_detach(&self, unit: Handle) -> (r: bool)
        ensures
            r == self.detachable(unit),
    {
        match self.units.records.get(unit) {
            Some(record) => match record.lifecycle {
                Lifecycle::Retired(epoch) => record.detached.is_none() && record.snapshots == 0
                    && record.pins == 0 && self.quiescent(epoch),
                _ => false,
            },
            None => false,
        }
    }

    /// The record after its unit left the directory.
    pub open spec fn detached_record(&self, unit: Handle, table: Option<Table>) -> UnitRecord {
        UnitRecord {
            detached: Some(self.core.execution),
            detached_table: table,
            ..self.units.records@[unit]
        }
    }

    pub open spec fn segment_of(&self, unit: Handle) -> int {
        self.units.records@[unit].unit.input.code.allocation.segment as int
    }

    /// What the segment's table holds beside the unit.
    pub open spec fn rest_without(&self, unit: Handle) -> Seq<Interval> {
        self.intervals_at(self.segment_of(unit)).filter(|interval: Interval| interval.unit != unit)
    }

    /// The segment's table may change in place.
    pub open spec fn may_compact(&self, segment: int) -> bool {
        self.core.phase is Closed && self.idle_now() && self.units.borrowers@[segment] == 0
    }

    /// The unit can leave the directory only through a new table.
    pub open spec fn needs_table(&self, unit: Handle) -> bool {
        !self.may_compact(self.segment_of(unit)) && self.rest_without(unit).len() != 0
    }

    pub open spec fn rest_bytes(&self, unit: Handle) -> int {
        list_bytes(
            core::mem::size_of::<Table>(),
            self.rest_without(unit).len() as int,
            core::mem::size_of::<Interval>(),
        )
    }

    /// The cache after the new table is charged, where one is needed.
    pub open spec fn table_charged(&self, unit: Handle) -> Cache {
        if self.needs_table(unit) {
            self.cache.charged(self.rest_bytes(unit))
        } else {
            self.cache
        }
    }

    /// The table that leaves the directory with the unit.
    pub open spec fn table_left(&self, unit: Handle) -> Option<Table> {
        if self.may_compact(self.segment_of(unit)) && self.rest_without(unit).len() != 0 {
            None
        } else {
            self.units.tables@[self.segment_of(unit)]
        }
    }

    /// What takes the place of the segment's table.
    pub open spec fn table_follows(&self, unit: Handle, table: Option<Table>) -> bool {
        let current = self.units.tables@[self.segment_of(unit)];
        if self.rest_without(unit).len() == 0 {
            table is None
        } else {
            &&& current is Some
            &&& table matches Some(table)
            &&& table.intervals@ == self.rest_without(unit)
            &&& table.generation == current->0.generation
            &&& if self.needs_table(unit) {
                table.installed == self.core.execution.id() && table.charge.bytes
                    == self.rest_bytes(unit)
            } else {
                table.installed == current->0.installed && table.charge == current->0.charge
            }
        }
    }

    /// Takes the unit's intervals out of its segment's table. In a stop the table
    /// changes in place, so that this needs no memory, unless a prepared unit was
    /// checked against it; otherwise a new table takes its place. False means that
    /// there was no memory for it.
    #[verifier::rlimit(80)]
    pub fn detach_faults(&mut self, unit: Handle) -> (r: Result<bool, Error>)
        requires
            old(self).wf(),
            old(self).detachable(unit),
        ensures
            final(self).wf(),
            *final(self) == (Lifetime {
                core: final(self).core,
                units: Units {
                    records: final(self).units.records,
                    tables: final(self).units.tables,
                    borrowers: final(self).units.borrowers,
                    ..old(self).units
                },
                cache: final(self).cache,
                ..*old(self)
            }),
            leaves_directory(*old(self), *final(self), unit, r),
            final(self).cache.failed == old(self).cache.failed,
            final(self).cache.open == old(self).cache.open,
            forall|segment: int|
                0 <= segment < SEGMENTS ==> #[trigger] final(self).units.borrowers@[segment] == old(
                    self,
                ).units.borrowers@[segment] || final(self).units.borrowers@[segment] == 0,
            match r {
                Ok(true) => {
                    let segment = old(
                        self,
                    ).units.records@[unit].unit.input.code.allocation.segment as int;
                    &&& exists|table: Option<Table>|
                        final(self).units.records@ == old(self).units.records@.insert(
                            unit,
                            #[trigger] old(self).detached_record(unit, table),
                        )
                    &&& forall|x: Interval|
                        final(self).intervals_at(segment).contains(x) <==> old(self).intervals_at(
                            segment,
                        ).contains(x) && x.unit != unit
                    &&& forall|other: int|
                        0 <= other < SEGMENTS && other != segment
                            ==> #[trigger] final(self).units.tables@[other] == old(
                            self,
                        ).units.tables@[other]
                    &&& final(self).core.execution.id() == old(self).core.executions.last() + 1
                    &&& final(self).core.executions.last() == old(self).core.executions.last() + 1
                    &&& final(self).core == (Coordinator {
                        execution: final(self).core.execution,
                        executions: final(self).core.executions,
                        ..old(self).core
                    })
                },
                Ok(false) => {
                    &&& *final(self) == *old(self)
                    &&& !old(self).still()
                },
                Err(error) => {
                    &&& final(self).units.records == old(self).units.records
                    &&& final(self).units.tables == old(self).units.tables
                    &&& final(self).core.execution == old(self).core.execution
                    &&& {
                        ||| old(self).cache_stops(error)
                        ||| {
                            &&& exhausted(error, "ExecutionEpoch"@)
                            &&& final(self).core == old(self).core.failed_with(error)
                            &&& old(self).core.executions.last() == u64::MAX
                        }
                    }
                },
            },
    {
        let mut segment: usize = 0;
        if let Some(record) = self.units.records.get(unit) {
            segment = record.unit.input.code.allocation.segment;
        }
        proof {
            assert(self.units.records@.dom().contains(unit));
            assert(self.units.attributes(segment as int));
        }
        let mut present = false;
        let mut rest: Vec<Interval> = Vec::new();
        if let Some(table) = &self.units.tables[segment] {
            present = true;
            rest = without_unit(&table.intervals, unit);
        }
        let in_place = self.core.phase == Phase::Closed && self.idle()
            && self.units.borrowers[segment] == 0;
        let ghost kept_charge: int = if self.needs_table(unit) {
            self.rest_bytes(unit)
        } else {
            0
        };
        proof {
            assert(self.segment_of(unit) == segment);
            assert(rest@ == self.rest_without(unit)) by {
                reveal(Seq::filter);
            }
            assert(in_place == self.may_compact(segment as int));
            assert((present && !in_place && rest@.len() != 0) == self.needs_table(unit));
        }
        let mut lease = MetadataLease { bytes: 0 };
        if present && !in_place && rest.len() != 0 {
            let bytes: usize = list_size(
                core::mem::size_of::<Table>(),
                rest.len(),
                core::mem::size_of::<Interval>(),
            );
            match self.charge(bytes, Tier::Lcq) {
                Ok(charge) => {
                    lease = charge;
                },
                Err(Error::Capacity(_)) => {
                    assert(leaves_directory(*old(self), *self, unit, Ok(false))) by {
                        reveal(leaves_directory);
                    }
                    return Ok(false);
                },
                Err(error) => {
                    assert(leaves_directory(*old(self), *self, unit, Err(error))) by {
                        reveal(leaves_directory);
                    }
                    return Err(error);
                },
            }
        }
        proof {
            lemma_units_alike(*old(self), *self);
            assert(self.cache == old(self).table_charged(unit));
            assert(lease.bytes == kept_charge);
        }
        let retired = self.core.execution;
        let next = match self.core.next_execution() {
            Ok(next) => next,
            Err(error) => {
                self.refund(lease);
                proof {
                    lemma_units_alike(*old(self), *self);
                    assert(leaves_directory(*old(self), *self, unit, Err(error))) by {
                        reveal(leaves_directory);
                    }
                }
                return Err(error);
            },
        };
        self.core.execution = next;
        proof {
            lemma_units_alike(*old(self), *self);
        }
        let ghost before = *self;
        let mut gone: Option<Table> = None;
        core::mem::swap(&mut self.units.tables[segment], &mut gone);
        let mut detached: Option<Table> = None;
        if present && !in_place {
            self.units.borrowers.set(segment, 0);
        }
        if let Some(table) = gone {
            if rest.len() == 0 {
                detached = Some(table);
            } else if in_place {
                let Table { generation, installed, intervals: _, charge } = table;
                let compacted: Option<Table> = Some(
                    Table { generation, installed, intervals: rest, charge },
                );
                self.units.tables.set(segment, compacted);
            } else {
                let generation = table.generation;
                detached = Some(table);
                let replacement: Option<Table> = Some(
                    Table { generation, installed: retired.get(), intervals: rest, charge: lease },
                );
                self.units.tables.set(segment, replacement);
            }
        }
        let ghost kept = detached;
        let record = self.units.records.get_mut(unit);
        record.detached = Some(retired);
        record.detached_table = detached;
        proof {
            assert(self.units.records@ == before.units.records@.insert(
                unit,
                old(self).detached_record(unit, kept),
            ));
            lemma_detached(*old(self), before, *self, unit, segment as int);
            assert(kept == old(self).table_left(unit));
            assert(old(self).table_follows(unit, self.units.tables@[segment as int]));
            assert(leaves_directory(*old(self), *self, unit, Ok(true))) by {
                reveal(leaves_directory);
            }
        }
        Ok(true)
    }
}

proof fn lemma_detached(start: Lifetime, before: Lifetime, after: Lifetime, unit: Handle, segment: int)
    requires
        before.wf(),
        start.units == before.units,
        before.units.records@.dom().contains(unit),
        before.units.records@[unit].unit.input.code.allocation.segment == segment,
        0 <= segment < SEGMENTS,
        after.units.records.wf(),
        start.core.execution.id() < before.core.execution.id(),
        exists|table: Option<Table>|
            after.units.records@ == before.units.records@.insert(
                unit,
                #[trigger] start.detached_record(unit, table),
            ),
        after.units.tables@.len() == SEGMENTS,
        forall|other: int|
            0 <= other < SEGMENTS && other != segment ==> #[trigger] after.units.tables@[other]
                == before.units.tables@[other],
        after.units.tables@[segment] is Some ==> ordered(
            after.units.tables@[segment]->0.intervals@,
        ),
        forall|x: Interval|
            after.intervals_at(segment).contains(x) ==> before.intervals_at(segment).contains(x)
                && x.unit != unit,
        after == (Lifetime {
            units: Units {
                records: after.units.records,
                tables: after.units.tables,
                borrowers: after.units.borrowers,
                ..before.units
            },
            ..before
        }),
        after.units.borrowers@.len() == SEGMENTS,
    ensures
        after.wf(),
{
    let table = choose|table: Option<Table>|
        after.units.records@ == before.units.records@.insert(
            unit,
            #[trigger] start.detached_record(unit, table),
        );
    assert forall|s: int| 0 <= s < SEGMENTS implies #[trigger] after.units.attributes(s) by {
        assert(before.units.attributes(s));
        if after.units.tables@[s] is Some {
            let current = after.units.tables@[s]->0;
            assert forall|k: int| 0 <= k < current.intervals@.len() implies after.units.names_access(
                #[trigger] current.intervals@[k],
                s,
            ) by {
                let x = current.intervals@[k];
                if s == segment {
                    assert(after.intervals_at(segment).contains(x));
                    assert(before.intervals_at(segment).contains(x));
                    let j = choose|j: int|
                        0 <= j < before.intervals_at(segment).len() && before.intervals_at(
                            segment,
                        )[j] == x;
                    assert(before.units.tables@[segment] is Some);
                    assert(before.units.names_access(
                        before.units.tables@[segment]->0.intervals@[j],
                        segment,
                    ));
                } else {
                    assert(before.units.names_access(x, s));
                    assert(x.unit != unit);
                }
            }
        }
    }
    assert forall|other: Handle, i: int|
        #![trigger after.units.records@[other].slots@[i]]
        after.units.records@.dom().contains(other) && 0 <= i
            < after.units.records@[other].slots@.len() implies after.slots@.dom().contains(
        after.units.records@[other].slots@[i],
    ) by {
        assert(before.slots@.dom().contains(before.units.records@[other].slots@[i]));
    }
}

impl Lifetime {
    /// The cache makes no more charges, for the reason that the error tells.
    pub open spec fn cache_stops(&self, error: Error) -> bool {
        ||| error == Error::CacheFailed && self.cache.failed
        ||| error == Error::Shutdown && !self.cache.open
    }

    /// Takes every unit that can leave out of the directory.
    pub(crate) fn detach_pass(&mut self) -> (r: Result<(), Error>)
        requires
            old(self).wf(),
        ensures
            final(self).wf(),
            final(self).slots == old(self).slots,
            final(self).keys == old(self).keys,
            final(self).readers == old(self).readers,
            final(self).identity == old(self).identity,
            final(self).units.retired_tables == old(self).units.retired_tables,
            final(self).units.dependencies == old(self).units.dependencies,
            final(self).cache_identity == old(self).cache_identity,
            *final(self) == (Lifetime {
                core: final(self).core,
                cache: final(self).cache,
                units: Units {
                    records: final(self).units.records,
                    tables: final(self).units.tables,
                    borrowers: final(self).units.borrowers,
                    ..old(self).units
                },
                ..*old(self)
            }),
            intervals_leave(*old(self), *final(self)),
            r is Ok ==> final(self).core == old(self).core.at_epoch(final(self).core),
            final(self).units.records@.dom() == old(self).units.records@.dom(),
            forall|unit: Handle| #[trigger]
                old(self).units.records@.dom().contains(unit) ==> {
                    &&& same_unit(
                        final(self).units.records@[unit],
                        old(self).units.records@[unit],
                    )
                    &&& final(self).units.records@[unit].lifecycle == old(
                        self,
                    ).units.records@[unit].lifecycle
                    &&& final(self).units.records@[unit].retirement == old(
                        self,
                    ).units.records@[unit].retirement
                    &&& final(self).units.records@[unit].snapshots == old(
                        self,
                    ).units.records@[unit].snapshots
                    &&& final(self).units.records@[unit].pins == old(
                        self,
                    ).units.records@[unit].pins
                    &&& final(self).units.records@[unit].family == old(
                        self,
                    ).units.records@[unit].family
                    &&& final(self).units.records@[unit].detached == old(
                        self,
                    ).units.records@[unit].detached || old(self).detachable(unit)
                },
            match r {
                Ok(_) => {
                    &&& final(self).core.executions.last() <= old(self).core.executions.last()
                        + old(self).leaving().len()
                    &&& final(self).table_load() >= old(self).table_load()
                    &&& final(self).cache == old(self).cache.charged(
                        final(self).table_load() - old(self).table_load(),
                    )
                    &&& final(self).swept(final(self).cache)
                },
                Err(error) => {
                    ||| {
                        &&& old(self).cache_stops(error)
                        &&& exists|unit: Handle| #[trigger]
                            final(self).detachable(unit) && final(self).needs_table(unit)
                    }
                    ||| {
                        &&& exhausted(error, "ExecutionEpoch"@)
                        &&& final(self).core == old(self).core.at_epoch(
                            final(self).core,
                        ).failed_with(error)
                        &&& old(self).core.executions.last() + old(self).leaving().len() > u64::MAX
                    }
                },
            },
            forall|unit: Handle| #[trigger]
                old(self).units.records@.dom().contains(unit)
                    && old(self).units.records@[unit].detached is Some
                    ==> final(self).units.records@[unit] == old(self).units.records@[unit],
            final(self).cache.failed == old(self).cache.failed,
            final(self).cache.open == old(self).cache.open,
            r is Ok && old(self).still() ==> forall|unit: Handle| #[trigger]
                final(self).units.records@.dom().contains(unit) ==> !final(self).detachable(unit),
    {
        let handles = self.units.records.handles();
        let ghost still = self.still();
        let ghost mut gone: Set<Handle> = Set::empty();
        proof {
            self.units.records.lemma_countable();
            vstd::set_lib::lemma_len_subset(self.leaving(), self.units.records@.dom());
            assert(self.cache.charged(0) == self.cache);
            lemma_intervals_stay(*self);
        }
        let mut stopped = false;
        let mut k: usize = 0;
        while k < handles.len() && !stopped
            invariant
                k <= handles@.len(),
                old(self).wf(),
                self.wf(),
                still == old(self).still(),
                self.slots == old(self).slots,
                self.keys == old(self).keys,
                self.readers == old(self).readers,
                self.identity == old(self).identity,
                self.units.retired_tables == old(self).units.retired_tables,
                self.units.dependencies == old(self).units.dependencies,
                self.cache_identity == old(self).cache_identity,
                self.core == old(self).core.at_epoch(self.core),
                *self == (Lifetime {
                    core: self.core,
                    cache: self.cache,
                    units: Units {
                        records: self.units.records,
                        tables: self.units.tables,
                        borrowers: self.units.borrowers,
                        ..old(self).units
                    },
                    ..*old(self)
                }),
                intervals_leave(*old(self), *self),
                self.cache.failed == old(self).cache.failed,
                self.cache.open == old(self).cache.open,
                self.units.records@.dom() == old(self).units.records@.dom(),
                self.units.records@.dom().finite(),
                old(self).leaving().finite(),
                gone.finite(),
                gone.subset_of(old(self).leaving()),
                self.core.executions.last() == old(self).core.executions.last() + gone.len(),
                forall|h: Handle| #[trigger]
                    gone.contains(h) ==> self.units.records@[h].detached is Some,
                self.table_load() >= old(self).table_load(),
                self.cache == old(self).cache.charged(
                    self.table_load() - old(self).table_load(),
                ),
                self.cache.leased == old(self).cache.leased + self.table_load() - old(
                    self,
                ).table_load(),
                self.cache.usage.metadata == old(self).cache.usage.metadata + self.table_load()
                    - old(self).table_load(),
                stopped ==> exists|h: Handle| #[trigger] self.no_room_to_leave(h, self.cache),
                forall|unit: Handle| #[trigger]
                    old(self).units.records@.dom().contains(unit)
                        && old(self).units.records@[unit].detached is Some
                        ==> self.units.records@[unit] == old(self).units.records@[unit],
                forall|unit: Handle| #[trigger]
                    old(self).units.records@.dom().contains(unit) ==> {
                        &&& same_unit(self.units.records@[unit], old(self).units.records@[unit])
                        &&& self.units.records@[unit].lifecycle == old(
                            self,
                        ).units.records@[unit].lifecycle
                        &&& self.units.records@[unit].retirement == old(
                            self,
                        ).units.records@[unit].retirement
                        &&& self.units.records@[unit].snapshots == old(
                            self,
                        ).units.records@[unit].snapshots
                        &&& self.units.records@[unit].pins == old(
                            self,
                        ).units.records@[unit].pins
                        &&& self.units.records@[unit].family == old(
                            self,
                        ).units.records@[unit].family
                        &&& self.units.records@[unit].detached == old(
                            self,
                        ).units.records@[unit].detached || old(self).detachable(unit)
                    },
                forall|h: Handle| #[trigger]
                    old(self).units.records@.dom().contains(h) ==> handles@.contains(h),
                forall|j: int|
                    0 <= j < handles@.len() ==> old(self).units.records@.dom().contains(
                        #[trigger] handles@[j],
                    ),
                still ==> !stopped,
                still ==> self.still(),
                !stopped ==> forall|j: int|
                    0 <= j < k ==> !self.detachable(#[trigger] handles@[j]),
            decreases handles@.len() - k + if stopped {
                0int
            } else {
                1
            },
        {
            let unit = handles[k];
            let ghost before = *self;
            assert(old(self).units.records@.dom().contains(handles@[k as int]));
            if self.can_detach(unit) {
                proof {
                    lemma_detachable_back(*old(self), *self, unit);
                    assert(!gone.contains(unit));
                    assert(gone.insert(unit).subset_of(old(self).leaving()));
                    vstd::set_lib::lemma_len_subset(gone.insert(unit), old(self).leaving());
                }
                let result = self.detach_faults(unit);
                proof {
                    assert(self.units.records@.dom() =~= old(self).units.records@.dom());
                    assert forall|other: Handle| #[trigger] old(
                        self,
                    ).units.records@.dom().contains(other) implies {
                        &&& same_unit(self.units.records@[other], before.units.records@[other])
                        &&& self.units.records@[other].lifecycle
                            == before.units.records@[other].lifecycle
                        &&& self.units.records@[other].retirement
                            == before.units.records@[other].retirement
                        &&& self.units.records@[other].snapshots
                            == before.units.records@[other].snapshots
                        &&& self.units.records@[other].pins == before.units.records@[other].pins
                        &&& self.units.records@[other].family
                            == before.units.records@[other].family
                        &&& other != unit ==> self.units.records@[other].detached
                            == before.units.records@[other].detached
                    } by {}
                }
                proof {
                    lemma_interval_step(*old(self), before, *self, unit, result == Ok::<bool, Error>(true));
                    if result is Err {
                        lemma_refused_leave(before, *self, unit, result->Err_0);
                    }
                }
                let detached = result?;
                if !detached {
                    stopped = true;
                }
                proof {
                    if !detached {
                        assert(self.no_room_to_leave(unit, self.cache)) by {
                            reveal(leaves_directory);
                        }
                    } else {
                        gone = gone.insert(unit);
                        lemma_load_step(before, *self, unit);
                    }
                    if detached {
                        assert(!self.detachable(unit));
                        assert forall|j: int| 0 <= j < k implies !self.detachable(
                            #[trigger] handles@[j],
                        ) by {
                            assert(!before.detachable(handles@[j]));
                            assert(old(self).units.records@.dom().contains(handles@[j]));
                            if self.detachable(handles@[j]) {
                                lemma_detachable_back(before, *self, handles@[j]);
                            }
                        }
                    }
                }
            }
            k = k + 1;
        }
        proof {
            vstd::set_lib::lemma_len_subset(gone, old(self).leaving());
            assert(self.swept(self.cache)) by {
                if !stopped {
                    assert forall|unit: Handle| !#[trigger] self.detachable(unit) by {
                        if self.detachable(unit) {
                            assert(old(self).units.records@.dom().contains(unit));
                            let j = choose|j: int| 0 <= j < handles@.len() && handles@[j] == unit;
                            assert(!self.detachable(handles@[j]));
                        }
                    }
                }
            }
            if still {
                assert forall|unit: Handle| #[trigger] self.units.records@.dom().contains(
                    unit,
                ) implies !self.detachable(unit) by {
                    assert(old(self).units.records@.dom().contains(unit));
                    let j = choose|j: int| 0 <= j < handles@.len() && handles@[j] == unit;
                    assert(!self.detachable(handles@[j]));
                }
            }
        }
        Ok(())
    }
}

/// The tables lost the intervals of the units that left the directory, and no others.
pub open spec fn intervals_leave(before: Lifetime, after: Lifetime) -> bool {
    forall|segment: int, x: Interval|
        0 <= segment < SEGMENTS ==> (#[trigger] after.intervals_at(segment).contains(x)
            <==> before.intervals_at(segment).contains(x)
            && after.units.records@[x.unit].detached is None)
}

/// What the tables hold belongs to units that have not left.
pub(crate) proof fn lemma_intervals_stay(process: Lifetime)
    requires
        process.wf(),
    ensures
        intervals_leave(process, process),
        forall|segment: int, x: Interval|
            0 <= segment < SEGMENTS && #[trigger] process.intervals_at(segment).contains(x)
                ==> process.units.names_access(x, segment),
{
    assert forall|segment: int, x: Interval|
        0 <= segment < SEGMENTS && #[trigger] process.intervals_at(segment).contains(
            x,
        ) implies process.units.names_access(x, segment) by {
        assert(process.units.attributes(segment));
        let intervals = process.intervals_at(segment);
        let k = choose|k: int| 0 <= k < intervals.len() && intervals[k] == x;
        assert(process.units.names_access(intervals[k], segment));
    }
}

/// One unit left the directory, or none.
proof fn lemma_interval_step(
    start: Lifetime,
    before: Lifetime,
    after: Lifetime,
    unit: Handle,
    left: bool,
)
    requires
        before.wf(),
        intervals_leave(start, before),
        before.units.records@.dom().contains(unit),
        if left {
            let segment = before.units.records@[unit].unit.input.code.allocation.segment as int;
            &&& exists|table: Option<Table>|
                after.units.records@ == before.units.records@.insert(
                    unit,
                    #[trigger] before.detached_record(unit, table),
                )
            &&& forall|x: Interval|
                after.intervals_at(segment).contains(x) <==> before.intervals_at(segment).contains(
                    x,
                ) && x.unit != unit
            &&& forall|other: int|
                0 <= other < SEGMENTS && other != segment ==> #[trigger] after.units.tables@[other]
                    == before.units.tables@[other]
        } else {
            after.units.records == before.units.records && after.units.tables
                == before.units.tables
        },
    ensures
        intervals_leave(start, after),
{
    lemma_intervals_stay(before);
    let own = before.units.records@[unit].unit.input.code.allocation.segment as int;
    assert forall|segment: int, x: Interval|
        0 <= segment < SEGMENTS implies (#[trigger] after.intervals_at(segment).contains(x)
        <==> start.intervals_at(segment).contains(x)
        && after.units.records@[x.unit].detached is None) by {
        assert(before.intervals_at(segment).contains(x) <==> start.intervals_at(segment).contains(x)
            && before.units.records@[x.unit].detached is None);
        if !left || segment != own {
            assert(after.units.tables@[segment] == before.units.tables@[segment]);
            assert(after.intervals_at(segment) == before.intervals_at(segment));
            if before.intervals_at(segment).contains(x) {
                assert(before.units.names_access(x, segment));
            }
        }
    }
}

/// Whether a unit can be detached depends on its record and the readers alone.
proof fn lemma_detachable_back(before: Lifetime, after: Lifetime, unit: Handle)
    requires
        after.detachable(unit),
        after.readers == before.readers,
        before.units.records@.dom().contains(unit),
        before.units.records@[unit].lifecycle == after.units.records@[unit].lifecycle,
        before.units.records@[unit].snapshots == after.units.records@[unit].snapshots,
        before.units.records@[unit].pins == after.units.records@[unit].pins,
        before.units.records@[unit].detached == after.units.records@[unit].detached
            || before.detachable(unit),
    ensures
        before.detachable(unit),
{
    let epoch = match after.units.records@[unit].lifecycle {
        Lifecycle::Retired(epoch) => epoch,
        _ => arbitrary(),
    };
    assert(before.quiescent_at(epoch.id()) == after.quiescent_at(epoch.id()));
}

/// A unit that is refused can still leave later.
proof fn lemma_refused_leave(before: Lifetime, after: Lifetime, unit: Handle, error: Error)
    requires
        before.detachable(unit),
        leaves_directory(before, after, unit, Err(error)),
    ensures
        before.core.executions.last() == u64::MAX && exhausted(error, "ExecutionEpoch"@) || {
            &&& before.cache_stops(error)
            &&& after.detachable(unit) && after.needs_table(unit)
        },
{
    reveal(leaves_directory);
}

proof fn lemma_segments_load(a: Seq<Option<Table>>, b: Seq<Option<Table>>, segment: int, count: int)
    requires
        a.len() == b.len(),
        count <= a.len(),
        forall|other: int| 0 <= other < a.len() && other != segment ==> #[trigger] a[other] == b[other],
    ensures
        segments_load(b, count) == segments_load(a, count) + if 0 <= segment < count {
            segments_load(b, segment + 1) - segments_load(b, segment) - (segments_load(
                a,
                segment + 1,
            ) - segments_load(a, segment))
        } else {
            0
        },
    decreases count,
{
    if count > 0 {
        lemma_segments_load(a, b, segment, count - 1);
        if segment != count - 1 {
            assert(a[count - 1] == b[count - 1]);
        }
    }
}

/// A unit that leaves the directory takes its segment's table with it, or leaves
/// it there: only a new table is charged.
proof fn lemma_load_step(before: Lifetime, after: Lifetime, unit: Handle)
    requires
        before.wf(),
        after.wf(),
        before.detachable(unit),
        leaves_directory(before, after, unit, Ok(true)),
        forall|other: int|
            0 <= other < SEGMENTS && other != before.segment_of(unit)
                ==> #[trigger] after.units.tables@[other] == before.units.tables@[other],
    ensures
        after.table_load() == before.table_load() + if before.needs_table(unit) {
            before.rest_bytes(unit)
        } else {
            0
        },
        0 <= before.rest_bytes(unit),
        after.cache.leased == before.cache.leased + after.table_load() - before.table_load(),
        after.cache.usage.metadata == before.cache.usage.metadata + after.table_load()
            - before.table_load(),
        after.cache == (Cache {
            usage: after.cache.usage,
            leased: after.cache.leased,
            ..before.cache
        }),
        after.cache.usage.committed == before.cache.usage.committed,
{
    reveal(leaves_directory);
    let segment = before.segment_of(unit);
    before.units.records.lemma_countable();
    assert(before.units.records@.dom().contains(unit));
    let dom = before.units.records@.dom();
    assert(after.units.records@.dom() =~= dom);
    lemma_total_remove(dom, before.detached_charge(), unit);
    lemma_total_remove(dom, after.detached_charge(), unit);
    lemma_total_alike(dom.remove(unit), before.detached_charge(), after.detached_charge());
    lemma_segments_load(before.units.tables@, after.units.tables@, segment, SEGMENTS as int);
    if before.needs_table(unit) {
        super::process::lemma_charge_fits(before.cache, before.rest_bytes(unit), Tier::Lcq);
    }
    assert(before.rest_without(unit).len() != 0 ==> before.units.tables@[segment] is Some) by {
        reveal(Seq::filter);
    }
}

} // verus!
