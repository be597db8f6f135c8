//! Publication of a prepared unit in one step, and the fault lookup it feeds.

use vstd::multiset::Multiset;
use vstd::prelude::*;
use super::coordinator::{exhausted, Coordinator, Error, Reason};
use super::directory::{Interval, Table};
use super::dispatch::Publication;
use super::pages::{association, Association};
use super::prepare::{code_overlaps, extend_intervals, is_unit, unit_interval, PreparedUnit};
use super::process::{
    refunded, DispatchSlot, Family, Lifecycle, Lifetime, RetiredTable, Retirement, UnitRecord, Units,
};
use super::registry::Handle;
use super::unit::{fault_of, first_fault, CodePageDependency};
use super::units::{lemma_record_changed, lemma_units_alike, publication_failed};
use crate::abi::dispatch::DispatchPayload;
use crate::abi::identity::{ExecutionEpoch, MaintenanceSequence};
use crate::executable::cache::MetadataLease;
use crate::executable::{Tier, SEGMENTS};

verus! {

/// The associations with one for each of the first `count` pages.
pub open spec fn with_pages(
    pages: Multiset<Association>,
    dependencies: Seq<CodePageDependency>,
    unit: Handle,
    count: int,
) -> Multiset<Association>
    decreases count,
{
    if count <= 0 {
        pages
    } else {
        with_pages(pages, dependencies, unit, count - 1).insert(
            association(dependencies[count - 1], unit),
        )
    }
}

/// What publication of the unit does, where the index of pages has `room`.
pub open spec fn publishes(
    before: Lifetime,
    after: Lifetime,
    prepared: PreparedUnit,
    cursor: u64,
    room: usize,
    r: Result<Handle, (PreparedUnit, Error)>,
) -> bool {
    match r {
        Ok(unit) => {
            &&& forall|i: int|
                0 <= i < prepared.publications@.len() ==> before.current(
                    #[trigger] prepared.publications@[i],
                )
            &&& prepared.family is Some ==> before.units.hcq_failure is None && !before.units.overlaps(prepared.unit.input.instructions@)
            &&& !before.outdated(prepared, cursor)
            &&& !before.index_full(
                room,
                prepared.unit.input.dependencies@.len() as int,
            )
            &&& before.units.records.newest() < u64::MAX
            &&& prepared.family is Some ==> before.units.families.newest() < u64::MAX
            &&& after.cache == refunded(before.cache, prepared.held.bytes as int)
            &&& exists|cutover: Option<MaintenanceSequence>|
                {
                    &&& cutover is Some <==> before.replaces_code(prepared)
                    &&& #[trigger] published_core(before.core, after.core, cutover)
                    &&& published_records(
                        before,
                        after,
                        prepared,
                        unit,
                        cutover,
                    )
                }
            &&& published_table(before, after, prepared, unit)
            &&& published_family(before, after, prepared, unit)
            &&& payloads_replaced(
                before,
                after,
                prepared.publications@,
                prepared.payloads@,
            )
            &&& after.units.dependencies@ == with_pages(
                before.units.dependencies@,
                prepared.unit.input.dependencies@,
                unit,
                prepared.unit.input.dependencies@.len() as int,
            )
        },
        Err((returned, error)) => {
            &&& returned == prepared
            &&& after.cache == before.cache
            &&& after.slots == before.slots
            &&& after.units.records@ == before.units.records@
            &&& after.units.families@ == before.units.families@
            &&& after.units.tables == before.units.tables
            &&& after.units.retired_tables == before.units.retired_tables
            &&& after.units.dependencies == before.units.dependencies
            &&& match first_fault(
                |i: int| before.publication_fault(prepared.publications@[i]),
                0,
                prepared.publications@.len() as int,
            ) {
                Some(fault) => fault == fault_of(error) && after == before,
                None => if prepared.family is Some && before.units.hcq_failure is Some {
                    error == before.units.hcq_failure->0 && after == before
                } else if before.outdated(prepared, cursor) {
                    error == Error::StalePublication && after == before
                } else if before.index_full(
                    room,
                    prepared.unit.input.dependencies@.len() as int,
                ) {
                    error == Error::StalePublication && after == before
                } else {
                    before.unpublishable(after, prepared, error)
                },
            }
        },
    }
}

impl PreparedUnit {
    /// Its payloads carry numbers of this process.
    pub open spec fn issued_by(&self, process: Lifetime) -> bool {
        forall|i: int|
            0 <= i < self.payloads@.len() ==> (#[trigger] self.payloads@[i]).reachability_of().id()
                <= process.reachabilities.last()
    }

    pub open spec fn segment(&self) -> int {
        self.unit.input.code.allocation.segment as int
    }
}

impl Lifetime {
    /// Something that the preparation relied on has changed.
    pub open spec fn outdated(&self, prepared: PreparedUnit, cursor: u64) -> bool {
        ||| cursor != prepared.unit.input.cursor
        ||| self.units.decommitting@[prepared.segment()]
        ||| !self.units.records.space()
        ||| prepared.family is Some && !self.units.families.space()
        ||| self.installed_at(prepared.segment()) != prepared.previous
        ||| prepared.previous is Some && self.units.retired_tables@.len()
            >= self.units.retired_capacity
        ||| code_overlaps(prepared.unit.input, self.intervals_at(prepared.segment()))
    }

    /// A number that the publication needs ran out, or another family has come to
    /// cover its instructions.
    pub open spec fn unpublishable(&self, after: Lifetime, prepared: PreparedUnit, error: Error) -> bool {
        let tier = prepared.unit.input.tier;
        if self.units.records.newest() == u64::MAX || prepared.family is Some
            && self.units.families.newest() == u64::MAX {
            exhausted(error, "registry handle"@) && publication_failed(*self, after, error, tier)
        } else if prepared.family is Some && self.units.overlaps(
            prepared.unit.input.instructions@,
        ) {
            error == Error::StalePublication && after == *self
        } else if self.core.executions.last() == u64::MAX {
            &&& exhausted(error, "ExecutionEpoch"@)
            &&& if tier == Tier::Hcq {
                after.units.hcq_failure == Some(error) && after.core.failure is None
            } else {
                after.core.failure == Some(error)
            }
        } else {
            &&& self.replaces_code(prepared)
            &&& self.core.request_exhausts() matches Some(name) && exhausted(error, name)
            &&& after.core.failure == Some(error)
        }
    }

    /// A slot of the unit already publishes low-tier code, which it replaces.
    pub open spec fn replaces_code(&self, prepared: PreparedUnit) -> bool {
        prepared.unit.input.tier == Tier::Lcq && exists|i: int|
            0 <= i < prepared.publications@.len() && self.slots@[(
            #[trigger] prepared.publications@[i]).slot].payload.lcq_of() is Some
    }

    /// The unit's code is what the slot of one of the publications has run.
    pub open spec fn is_replaced(&self, prepared: PreparedUnit, record: UnitRecord) -> bool {
        exists|i: int|
            0 <= i < prepared.publications@.len() && self.slots@[(
            #[trigger] prepared.publications@[i]).slot].payload.lcq_of() is Some && is_unit(
                record,
                self.slots@[prepared.publications@[i].slot].payload.lcq_of()->0,
            )
    }

    /// The slots of the publications.
    fn publication_slots(publications: &Vec<Publication>) -> (r: Vec<Handle>)
        ensures
            r@.len() == publications@.len(),
            forall|i: int| 0 <= i < r@.len() ==> #[trigger] r@[i] == publications@[i].slot,
    {
        let mut r: Vec<Handle> = Vec::new();
        let mut i: usize = 0;
        while i < publications.len()
            invariant
                i <= publications@.len(),
                r@.len() == i,
                forall|j: int| 0 <= j < i ==> #[trigger] r@[j] == publications@[j].slot,
            decreases publications@.len() - i,
        {
            r.push(publications[i].slot);
            i = i + 1;
        }
        r
    }

    /// The records whose code the publications replace, and whether there is any
    /// such code.
    fn replaced_units(&self, publications: &Vec<Publication>) -> (r: (bool, Vec<Handle>))
        requires
            self.wf(),
            forall|i: int|
                0 <= i < publications@.len() ==> self.slots@.dom().contains(
                    (#[trigger] publications@[i]).slot,
                ),
        ensures
            r.0 == exists|i: int|
                0 <= i < publications@.len() && self.slots@[(
                #[trigger] publications@[i]).slot].payload.lcq_of() is Some,
            forall|k: int|
                0 <= k < r.1@.len() ==> self.units.records@.dom().contains(#[trigger] r.1@[k])
                    && exists|i: int|
                    0 <= i < publications@.len() && self.slots@[(
                    #[trigger] publications@[i]).slot].payload.lcq_of() is Some && is_unit(
                        self.units.records@[r.1@[k]],
                        self.slots@[publications@[i].slot].payload.lcq_of()->0,
                    ),
            forall|i: int|
                0 <= i < publications@.len() && self.slots@[(
                #[trigger] publications@[i]).slot].payload.lcq_of() is Some ==> {
                    ||| forall|unit: Handle| #[trigger]
                        self.units.records@.dom().contains(unit) ==> !is_unit(
                            self.units.records@[unit],
                            self.slots@[publications@[i].slot].payload.lcq_of()->0,
                        )
                    ||| exists|k: int|
                        0 <= k < r.1@.len() && is_unit(
                            self.units.records@[#[trigger] r.1@[k]],
                            self.slots@[publications@[i].slot].payload.lcq_of()->0,
                        )
                },
    {
        let mut any = false;
        let mut units: Vec<Handle> = Vec::new();
        let mut i: usize = 0;
        while i < publications.len()
            invariant
                i <= publications@.len(),
                self.wf(),
                forall|i: int|
                    0 <= i < publications@.len() ==> self.slots@.dom().contains(
                        (#[trigger] publications@[i]).slot,
                    ),
                any == exists|j: int|
                    0 <= j < i && self.slots@[(
                    #[trigger] publications@[j]).slot].payload.lcq_of() is Some,
                forall|k: int|
                    0 <= k < units@.len() ==> self.units.records@.dom().contains(
                        #[trigger] units@[k],
                    ) && exists|i: int|
                        0 <= i < publications@.len() && self.slots@[(
                        #[trigger] publications@[i]).slot].payload.lcq_of() is Some && is_unit(
                            self.units.records@[units@[k]],
                            self.slots@[publications@[i].slot].payload.lcq_of()->0,
                        ),
                forall|j: int|
                    0 <= j < i && self.slots@[(
                    #[trigger] publications@[j]).slot].payload.lcq_of() is Some ==> {
                        ||| forall|unit: Handle| #[trigger]
                            self.units.records@.dom().contains(unit) ==> !is_unit(
                                self.units.records@[unit],
                                self.slots@[publications@[j].slot].payload.lcq_of()->0,
                            )
                        ||| exists|k: int|
                            0 <= k < units@.len() && is_unit(
                                self.units.records@[#[trigger] units@[k]],
                                self.slots@[publications@[j].slot].payload.lcq_of()->0,
                            )
                    },
            decreases publications@.len() - i,
        {
            assert(self.slots@.dom().contains(publications@[i as int].slot));
            let ghost before = units@;
            let lcq = match self.slots.get(publications[i].slot) {
                Some(slot) => slot.payload.lcq(),
                None => None,
            };
            if let Some(lcq) = lcq {
                any = true;
                proof {
                    assert(self.slots@[publications@[i as int].slot].payload.lcq_of() == Some(lcq));
                }
                if let Some(unit) = self.units.find_unit(lcq) {
                    units.push(unit);
                    proof {
                        assert(units@[before.len() as int] == unit);
                    }
                }
            }
            proof {
                assert forall|k: int| 0 <= k < units@.len() implies self.units.records@.dom().contains(
                    #[trigger] units@[k],
                ) && exists|i: int|
                    0 <= i < publications@.len() && self.slots@[(
                    #[trigger] publications@[i]).slot].payload.lcq_of() is Some && is_unit(
                        self.units.records@[units@[k]],
                        self.slots@[publications@[i].slot].payload.lcq_of()->0,
                    ) by {
                    if k < before.len() {
                        assert(units@[k] == before[k]);
                    } else {
                        assert(self.slots@[publications@[i as int].slot].payload.lcq_of() is Some);
                    }
                }
                assert forall|j: int|
                    0 <= j < i + 1 && self.slots@[(
                    #[trigger] publications@[j]).slot].payload.lcq_of() is Some implies {
                    ||| forall|unit: Handle| #[trigger]
                        self.units.records@.dom().contains(unit) ==> !is_unit(
                            self.units.records@[unit],
                            self.slots@[publications@[j].slot].payload.lcq_of()->0,
                        )
                    ||| exists|k: int|
                        0 <= k < units@.len() && is_unit(
                            self.units.records@[#[trigger] units@[k]],
                            self.slots@[publications@[j].slot].payload.lcq_of()->0,
                        )
                } by {
                    if j < i {
                        if exists|k: int|
                            0 <= k < before.len() && is_unit(
                                self.units.records@[#[trigger] before[k]],
                                self.slots@[publications@[j].slot].payload.lcq_of()->0,
                            ) {
                            let k = choose|k: int|
                                0 <= k < before.len() && is_unit(
                                    self.units.records@[#[trigger] before[k]],
                                    self.slots@[publications@[j].slot].payload.lcq_of()->0,
                                );
                            assert(units@[k] == before[k]);
                        }
                    }
                }
            }
            i = i + 1;
        }
        (any, units)
    }

    /// Marks the units whose code was replaced.
    fn supersede(&mut self, units: &Vec<Handle>, sequence: MaintenanceSequence)
        requires
            old(self).wf(),
            forall|k: int|
                0 <= k < units@.len() ==> old(self).units.records@.dom().contains(
                    #[trigger] units@[k],
                ),
        ensures
            final(self).wf(),
            final(self).units.records@.dom() == old(self).units.records@.dom(),
            forall|unit: Handle| #[trigger]
                old(self).units.records@.dom().contains(unit) ==> final(self).units.records@[unit]
                    == if units@.contains(unit) {
                    superseded(old(self).units.records@[unit], sequence)
                } else {
                    old(self).units.records@[unit]
                },
            *final(self) == (Lifetime {
                units: Units { records: final(self).units.records, ..old(self).units },
                ..*old(self)
            }),
    {
        let mut k: usize = 0;
        while k < units.len()
            invariant
                k <= units@.len(),
                self.wf(),
                forall|k: int|
                    0 <= k < units@.len() ==> old(self).units.records@.dom().contains(
                        #[trigger] units@[k],
                    ),
                self.units.records@.dom() == old(self).units.records@.dom(),
                forall|unit: Handle| #[trigger]
                    old(self).units.records@.dom().contains(unit) ==> self.units.records@[unit]
                        == if units@.take(k as int).contains(unit) {
                        superseded(old(self).units.records@[unit], sequence)
                    } else {
                        old(self).units.records@[unit]
                    },
                *self == (Lifetime {
                    units: Units { records: self.units.records, ..old(self).units },
                    ..*old(self)
                }),
            decreases units@.len() - k,
        {
            let unit = units[k];
            assert(old(self).units.records@.dom().contains(units@[k as int]));
            let ghost before = self.units.records@;
            if let Some(record) = self.units.records.get(unit) {
                let snapshots: usize = record.snapshots;
                let pins: usize = record.pins;
                self.amend(
                    unit,
                    Lifecycle::Superseded,
                    Some(Retirement { reason: Reason::TierCutover, sequence }),
                    snapshots,
                    pins,
                );
            }
            proof {
                let taken = units@.take(k as int);
                let next = units@.take(k + 1);
                assert(next =~= taken.push(unit));
                assert forall|other: Handle| next.contains(other) <==> taken.contains(other)
                    || other == unit by {
                    if next.contains(other) && other != unit {
                        let j = choose|j: int| 0 <= j < next.len() && next[j] == other;
                        assert(taken[j] == other);
                    }
                    if taken.contains(other) {
                        let j = choose|j: int| 0 <= j < taken.len() && taken[j] == other;
                        assert(next[j] == other);
                    }
                    assert(next[k as int] == unit);
                }
                assert(self.units.records@.dom() =~= old(self).units.records@.dom());
            }
            k = k + 1;
        }
        proof {
            assert(units@.take(units@.len() as int) =~= units@);
        }
    }

    /// Puts the prepared payloads into their slots.
    fn replace_payloads(&mut self, publications: &Vec<Publication>, payloads: &Vec<DispatchPayload>)
        requires
            old(self).wf(),
            publications@.len() == payloads@.len(),
            forall|i: int|
                0 <= i < publications@.len() ==> old(self).slots@.dom().contains(
                    (#[trigger] publications@[i]).slot,
                ),
            forall|i: int, j: int|
                0 <= i < j < publications@.len() ==> (#[trigger] publications@[i]).slot != (
                #[trigger] publications@[j]).slot,
            forall|i: int|
                0 <= i < payloads@.len() ==> (#[trigger] payloads@[i]).reachability_of().id()
                    <= old(self).reachabilities.last(),
        ensures
            final(self).wf(),
            *final(self) == (Lifetime { slots: final(self).slots, ..*old(self) }),
            payloads_replaced(*old(self), *final(self), publications@, payloads@),
    {
        let mut i: usize = 0;
        while i < publications.len()
            invariant
                i <= publications@.len(),
                publications@.len() == payloads@.len(),
                self.wf(),
                *self == (Lifetime { slots: self.slots, ..*old(self) }),
                forall|i: int|
                    0 <= i < publications@.len() ==> old(self).slots@.dom().contains(
                        (#[trigger] publications@[i]).slot,
                    ),
                forall|i: int, j: int|
                    0 <= i < j < publications@.len() ==> (#[trigger] publications@[i]).slot != (
                    #[trigger] publications@[j]).slot,
                forall|i: int|
                    0 <= i < payloads@.len() ==> (#[trigger] payloads@[i]).reachability_of().id()
                        <= old(self).reachabilities.last(),
                self.slots@.dom() == old(self).slots@.dom(),
                forall|j: int|
                    0 <= j < i ==> self.slots@[(#[trigger] publications@[j]).slot] == (
                    DispatchSlot {
                        payload: payloads@[j],
                        ..old(self).slots@[publications@[j].slot]
                    }),
                forall|slot: Handle| #[trigger]
                    old(self).slots@.dom().contains(slot) && (forall|j: int|
                        0 <= j < i ==> (#[trigger] publications@[j]).slot != slot)
                        ==> self.slots@[slot] == old(self).slots@[slot],
            decreases publications@.len() - i,
        {
            let slot = publications[i].slot;
            let ghost before = *self;
            assert(old(self).slots@.dom().contains(publications@[i as int].slot));
            proof {
                assert forall|j: int| 0 <= j < i implies (#[trigger] publications@[j]).slot
                    != slot by {
                    assert(publications@[j].slot != publications@[i as int].slot);
                }
                assert(self.slots@[slot] == old(self).slots@[slot]);
            }
            self.slots.get_mut(slot).payload = payloads[i];
            proof {
                assert(self.slots@.dom() =~= old(self).slots@.dom());
                assert(payloads@[i as int].reachability_of().id() <= self.reachabilities.last());
                lemma_payload_changed(before, *self, slot);
            }
            i = i + 1;
        }
        proof {
            assert forall|slot: Handle| #[trigger]
                old(self).slots@.dom().contains(slot) && !(exists|i: int|
                    0 <= i < publications@.len() && (
                    #[trigger] publications@[i]).slot == slot) implies self.slots@[slot] == old(
                self,
            ).slots@[slot] by {
                assert forall|j: int| 0 <= j < publications@.len() implies (
                #[trigger] publications@[j]).slot != slot by {}
            }
        }
    }
}

/// The slots of the publications hold the payloads; the others are untouched.
pub open spec fn payloads_replaced(
    before: Lifetime,
    after: Lifetime,
    publications: Seq<Publication>,
    payloads: Seq<DispatchPayload>,
) -> bool {
    &&& after.slots@.dom() == before.slots@.dom()
    &&& forall|i: int|
        0 <= i < publications.len() ==> after.slots@[(#[trigger] publications[i]).slot] == (
        DispatchSlot { payload: payloads[i], ..before.slots@[publications[i].slot] })
    &&& forall|slot: Handle| #[trigger]
        before.slots@.dom().contains(slot) && !(exists|i: int|
            0 <= i < publications.len() && (#[trigger] publications[i]).slot == slot)
            ==> after.slots@[slot] == before.slots@[slot]
}

pub open spec fn superseded(record: UnitRecord, sequence: MaintenanceSequence) -> UnitRecord {
    UnitRecord {
        lifecycle: Lifecycle::Superseded,
        retirement: Some(Retirement { reason: Reason::TierCutover, sequence }),
        ..record
    }
}

proof fn lemma_payload_changed(before: Lifetime, after: Lifetime, slot: Handle)
    requires
        before.wf(),
        before.slots@.dom().contains(slot),
        after.slots.wf(),
        after == (Lifetime { slots: after.slots, ..before }),
        after.slots@.dom() == before.slots@.dom(),
        after.slots@[slot].retired == before.slots@[slot].retired,
        after.slots@[slot].key == before.slots@[slot].key,
        after.slots@[slot].payload.reachability_of().id() <= before.reachabilities.last(),
        forall|other: Handle|
            other != slot && before.slots@.dom().contains(other) ==> #[trigger] after.slots@[other]
                == before.slots@[other],
    ensures
        after.wf(),
{
    assert forall|key: crate::abi::keys::BlockKey| #[trigger] after.keys@.dom().contains(
        key,
    ) implies after.slots@.dom().contains(after.keys@[key])
        && after.slots@[after.keys@[key]].retired is None
        && after.slots@[after.keys@[key]].key == key by {
        assert(before.keys@.dom().contains(key));
        if after.keys@[key] != slot {
            assert(after.slots@[after.keys@[key]] == before.slots@[after.keys@[key]]);
        }
    }
    assert forall|other: Handle| #[trigger] after.slots@.dom().contains(
        other,
    ) implies super::process::retired_before(
        after.slots@[other],
        after.core.execution.id() as int,
    ) && after.slots@[other].payload.reachability_of().id() <= after.reachabilities.last() by {
        assert(before.slots@.dom().contains(other));
        if other != slot {
            assert(after.slots@[other] == before.slots@[other]);
        }
    }
    assert forall|unit: Handle, i: int|
        #![trigger after.units.records@[unit].slots@[i]]
        after.units.records@.dom().contains(unit) && 0 <= i
            < after.units.records@[unit].slots@.len() implies after.slots@.dom().contains(
        after.units.records@[unit].slots@[i],
    ) by {
        assert(before.slots@.dom().contains(before.units.records@[unit].slots@[i]));
    }
}

/// What publication makes of the unit and of the code it replaces.
pub open spec fn published_records(
    before: Lifetime,
    after: Lifetime,
    prepared: PreparedUnit,
    unit: Handle,
    cutover: Option<MaintenanceSequence>,
) -> bool {
    &&& !before.units.records@.dom().contains(unit)
    &&& after.units.records@.dom() == before.units.records@.dom().insert(unit)
    &&& {
        let record = after.units.records@[unit];
        &&& record.unit == prepared.unit
        &&& record.published == before.core.execution
        &&& record.lifecycle == Lifecycle::Published
        &&& record.slots@ == Seq::new(
            prepared.publications@.len(),
            |i: int| prepared.publications@[i].slot,
        )
        &&& record.retirement is None
        &&& record.detached is None
        &&& record.snapshots == 0
        &&& record.pins == 0
        &&& record.charge == prepared.charge
        &&& (record.family is Some) == (prepared.family is Some)
    }
    &&& forall|other: Handle| #[trigger]
        before.units.records@.dom().contains(other) ==> {
            ||| after.units.records@[other] == before.units.records@[other]
            ||| cutover is Some && before.is_replaced(prepared, before.units.records@[other])
                && after.units.records@[other] == superseded(
                before.units.records@[other],
                cutover->0,
            )
        }
    &&& cutover is Some ==> forall|i: int|
        0 <= i < prepared.publications@.len() && before.slots@[(
        #[trigger] prepared.publications@[i]).slot].payload.lcq_of() is Some ==> {
            ||| forall|other: Handle| #[trigger]
                before.units.records@.dom().contains(other) ==> !is_unit(
                    before.units.records@[other],
                    before.slots@[prepared.publications@[i].slot].payload.lcq_of()->0,
                )
            ||| exists|other: Handle| #[trigger]
                before.units.records@.dom().contains(other) && is_unit(
                    before.units.records@[other],
                    before.slots@[prepared.publications@[i].slot].payload.lcq_of()->0,
                ) && after.units.records@[other].lifecycle == Lifecycle::Superseded
        }
}

/// What publication makes of the unit's segment: the old table is retired at the
/// epoch that ends, and the new one holds its intervals and the unit's.
pub open spec fn published_table(
    before: Lifetime,
    after: Lifetime,
    prepared: PreparedUnit,
    unit: Handle,
) -> bool {
    let segment = prepared.segment();
    &&& after.units.tables@.len() == before.units.tables@.len()
    &&& forall|other: int|
        0 <= other < SEGMENTS && other != segment ==> #[trigger] after.units.tables@[other]
            == before.units.tables@[other]
    &&& after.units.tables@[segment] is Some
    &&& after.units.tables@[segment]->0.generation == prepared.unit.input.code.allocation.generation
    &&& after.units.tables@[segment]->0.installed == before.core.execution.id()
    &&& after.units.tables@[segment]->0.charge == prepared.table_charge
    &&& forall|x: Interval|
        after.intervals_at(segment).contains(x) <==> before.intervals_at(segment).contains(x)
            || exists|k: int|
            0 <= k < prepared.unit.input.faults@.len() && x == #[trigger] unit_interval(
                prepared.unit.input,
                unit,
                k,
            )
    &&& after.units.retired_tables@ == match before.units.tables@[segment] {
        Some(table) => before.units.retired_tables@.push(
            RetiredTable { table, epoch: before.core.execution },
        ),
        None => before.units.retired_tables@,
    }
}

/// The family of an optimized unit is registered with it.
pub open spec fn published_family(
    before: Lifetime,
    after: Lifetime,
    prepared: PreparedUnit,
    unit: Handle,
) -> bool {
    match (prepared.family, after.units.records@[unit].family) {
        (None, None) => after.units.families@ == before.units.families@,
        (Some(family), Some(handle)) => {
            &&& !before.units.families@.dom().contains(handle)
            &&& after.units.families@ == before.units.families@.insert(
                handle,
                after.units.families@[handle],
            )
            &&& after.units.families@[handle].id == family.id
            &&& after.units.families@[handle].version == family.version
            &&& after.units.families@[handle].unit == unit
            &&& after.units.families@[handle].baselines == family.baselines
            &&& after.units.families@[handle].charge == family.charge
        },
        _ => false,
    }
}

/// What publication makes of admission: one epoch ends, and replaced code asks
/// for a stop.
pub open spec fn published_core(
    before: Coordinator,
    after: Coordinator,
    cutover: Option<MaintenanceSequence>,
) -> bool {
    &&& after.execution.id() == before.executions.last() + 1
    &&& after.executions.last() == before.executions.last() + 1
    &&& after.completed == before.completed
    &&& after.transition_owned == before.transition_owned
    &&& after.shutdown == before.shutdown
    &&& after.failure == before.failure
    &&& match cutover {
        None => {
            &&& after.phase == before.phase
            &&& after.admission == before.admission
            &&& after.pending == before.pending
            &&& after.control == before.control
        },
        Some(sequence) => {
            &&& after.phase is Closing
            &&& after.admission.id() == before.admissions.last() + 1
            &&& after.pending == before.pending.with(Reason::TierCutover, Some(sequence))
            &&& sequence.id() == before.sequences.last() + 1
        },
    }
}

impl Lifetime {
    fn is_outdated(&self, prepared: &PreparedUnit, cursor: u64) -> (r: bool)
        requires
            self.wf(),
            prepared.wf(),
        ensures
            r == self.outdated(*prepared, cursor),
    {
        let segment: usize = prepared.unit.input.code.allocation.segment;
        let installed: Option<u64> = match &self.units.tables[segment] {
            Some(table) => Some(table.installed),
            None => None,
        };
        proof {
            assert(self.units.attributes(segment as int));
        }
        let none: Vec<Interval> = Vec::new();
        let current = match &self.units.tables[segment] {
            Some(table) => &table.intervals,
            None => &none,
        };
        let apart = extend_intervals(
            current,
            &prepared.unit.input,
            Handle { index: 0, generation: 0 },
        ).is_some();
        !apart || cursor != prepared.unit.input.cursor || self.units.decommitting[segment]
            || !self.units.records.has_space() || (prepared.family.is_some()
            && !self.units.families.has_space()) || installed != prepared.previous || (
        prepared.previous.is_some() && self.units.retired_tables.len()
            >= self.units.retired_capacity)
    }

    /// Registers the unit's record, family and pages.
    fn install_record(
        &mut self,
        prepared: PreparedUnit,
        slots: Vec<Handle>,
        published: ExecutionEpoch,
    ) -> (r: Handle)
        requires
            old(self).wf(),
            prepared.wf(),
            old(self).units.records.space(),
            old(self).units.records.newest() < u64::MAX,
            prepared.family is Some ==> old(self).units.families.space() && old(
                self,
            ).units.families.newest() < u64::MAX,
            published.id() < old(self).core.execution.id(),
            slots@.len() == prepared.publications@.len(),
            forall|i: int| 0 <= i < slots@.len() ==> old(self).slots@.dom().contains(#[trigger] slots@[i]),
        ensures
            final(self).wf(),
            r.generation == old(self).units.records.newest() + 1,
            !old(self).units.records@.dom().contains(r),
            final(self).units.records@ == old(self).units.records@.insert(
                r,
                final(self).units.records@[r],
            ),
            ({
                let record = final(self).units.records@[r];
                &&& record.unit == prepared.unit
                &&& record.published == published
                &&& record.lifecycle == Lifecycle::Published
                &&& record.slots == slots
                &&& record.retirement is None
                &&& record.detached is None
                &&& record.detached_table is None
                &&& record.snapshots == 0
                &&& record.pins == 0
                &&& record.charge == prepared.charge
                &&& match (prepared.family, record.family) {
                    (None, None) => final(self).units.families@ == old(self).units.families@,
                    (Some(family), Some(handle)) => {
                        &&& !old(self).units.families@.dom().contains(handle)
                        &&& final(self).units.families@ == old(self).units.families@.insert(
                            handle,
                            final(self).units.families@[handle],
                        )
                        &&& final(self).units.families@[handle].id == family.id
                        &&& final(self).units.families@[handle].version == family.version
                        &&& final(self).units.families@[handle].unit == r
                        &&& final(self).units.families@[handle].baselines == family.baselines
                        &&& final(self).units.families@[handle].charge == family.charge
                    },
                    _ => false,
                }
            }),
            final(self).units.dependencies@ == with_pages(
                old(self).units.dependencies@,
                prepared.unit.input.dependencies@,
                r,
                prepared.unit.input.dependencies@.len() as int,
            ),
            *final(self) == (Lifetime {
                units: Units {
                    records: final(self).units.records,
                    families: final(self).units.families,
                    dependencies: final(self).units.dependencies,
                    ..old(self).units
                },
                ..*old(self)
            }),
    {
        let PreparedUnit { unit, family, charge, .. } = prepared;
        let ghost input = unit.input;
        let record = UnitRecord {
            unit,
            published,
            lifecycle: Lifecycle::Published,
            slots,
            family: None,
            retirement: None,
            detached: None,
            detached_table: None,
            snapshots: 0,
            pins: 0,
            charge,
        };
        let handle = match self.units.records.insert(record) {
            Ok(handle) => handle,
            Err(_) => Handle { index: 0, generation: 0 },
        };
        proof {
            lemma_record_added(*old(self), *self, handle);
        }
        let ghost inserted = *self;
        if let Some(family) = family {
            let founded = Family {
                id: family.id,
                version: family.version,
                unit: handle,
                baselines: family.baselines,
                charge: family.charge,
            };
            let founded = match self.units.families.insert(founded) {
                Ok(founded) => founded,
                Err(_) => Handle { index: 0, generation: 0 },
            };
            proof {
                lemma_units_alike(inserted, *self);
            }
            let ghost registered = *self;
            self.units.records.get_mut(handle).family = Some(founded);
            proof {
                assert(self.units.records@.dom() =~= registered.units.records@.dom());
                lemma_record_changed(registered, *self, handle);
            }
        }
        let mut k: usize = 0;
        let ghost pages = self.units.dependencies@;
        let ghost settled = *self;
        let count: usize = match self.units.records.get(handle) {
            Some(record) => record.unit.input.dependencies.len(),
            None => 0,
        };
        while k < count
            invariant
                k <= count,
                count == input.dependencies@.len(),
                settled.wf(),
                settled.units.records@.dom().contains(handle),
                settled.units.records@[handle].unit.input == input,
                *self == (Lifetime {
                    units: Units { dependencies: self.units.dependencies, ..settled.units },
                    ..settled
                }),
                self.units.dependencies@ == with_pages(pages, input.dependencies@, handle, k as int),
            decreases count - k,
        {
            if let Some(record) = self.units.records.get(handle) {
                let page = record.unit.input.dependencies[k];
                self.units.dependencies.insert(page, handle);
            }
            k = k + 1;
        }
        proof {
            lemma_units_alike(settled, *self);
            assert(self.units.records@ =~= old(self).units.records@.insert(
                handle,
                self.units.records@[handle],
            ));
        }
        handle
    }

    /// Installs the table of a segment, and retires the one that was there.
    fn install_table(&mut self, segment: usize, table: Table, epoch: ExecutionEpoch)
        requires
            old(self).wf(),
            segment < SEGMENTS,
            epoch.id() < old(self).core.execution.id(),
            old(self).units.tables@[segment as int] is Some ==> old(
                self,
            ).units.retired_tables@.len() < old(self).units.retired_capacity,
            table.wf(),
            forall|k: int|
                0 <= k < table.intervals@.len() ==> old(self).units.names_access(
                    #[trigger] table.intervals@[k],
                    segment as int,
                ),
        ensures
            final(self).wf(),
            final(self).units.tables@ == old(self).units.tables@.update(
                segment as int,
                Some(table),
            ),
            final(self).units.retired_tables@ == match old(self).units.tables@[segment as int] {
                Some(before) => old(self).units.retired_tables@.push(
                    RetiredTable { table: before, epoch },
                ),
                None => old(self).units.retired_tables@,
            },
            *final(self) == (Lifetime {
                units: Units {
                    tables: final(self).units.tables,
                    borrowers: final(self).units.borrowers,
                    retired_tables: final(self).units.retired_tables,
                    ..old(self).units
                },
                ..*old(self)
            }),
            final(self).units.borrowers@ == old(self).units.borrowers@.update(segment as int, 0),
    {
        let mut other: Option<Table> = Some(table);
        core::mem::swap(&mut self.units.tables[segment], &mut other);
        if let Some(before) = other {
            self.units.retired_tables.push(RetiredTable { table: before, epoch });
        }
        self.units.borrowers.set(segment, 0);
        proof {
            assert(self.units.tables@ =~= old(self).units.tables@.update(
                segment as int,
                Some(table),
            ));
            assert forall|k: int| 0 <= k < SEGMENTS implies #[trigger] self.units.attributes(k) by {
                assert(old(self).units.attributes(k));
                if self.units.tables@[k] is Some {
                    let current = self.units.tables@[k]->0;
                    assert forall|j: int|
                        0 <= j < current.intervals@.len() implies self.units.names_access(
                        #[trigger] current.intervals@[j],
                        k,
                    ) by {
                        assert(old(self).units.names_access(current.intervals@[j], k));
                    }
                }
            }
        }
    }

    /// Publishes a prepared unit in one step: nothing is refused after the first
    /// change. A unit that is refused comes back. An index of pages that lacks room
    /// makes the preparation stale, too.
    pub fn publish_unit(&mut self, prepared: PreparedUnit, cursor: u64) -> (r: Result<
        Handle,
        (PreparedUnit, Error),
    >)
        requires
            old(self).wf(),
            prepared.wf(),
            prepared.issued_by(*old(self)),
        ensures
            final(self).wf(),
            *final(self) == (Lifetime {
                core: final(self).core,
                slots: final(self).slots,
                cache: final(self).cache,
                units: Units {
                    records: final(self).units.records,
                    families: final(self).units.families,
                    tables: final(self).units.tables,
                    borrowers: final(self).units.borrowers,
                    retired_tables: final(self).units.retired_tables,
                    dependencies: final(self).units.dependencies,
                    hcq_failure: final(self).units.hcq_failure,
                    ..old(self).units
                },
                ..*old(self)
            }),
            exists|room: usize| #[trigger]
                old(self).page_room(room) && publishes(
                    *old(self),
                    *final(self),
                    prepared,
                    cursor,
                    room,
                    r,
                ),
    {
        let room: usize = self.units.dependencies.capacity();
        assert(self.page_room(room));
        self.publish_with_room(prepared, cursor, room)
    }

    /// Publishes a prepared unit, where the index of pages has `room`.
    pub fn publish_with_room(&mut self, prepared: PreparedUnit, cursor: u64, room: usize) -> (r:
        Result<Handle, (PreparedUnit, Error)>)
        requires
            old(self).wf(),
            prepared.wf(),
            prepared.issued_by(*old(self)),
        ensures
            final(self).wf(),
            *final(self) == (Lifetime {
                core: final(self).core,
                slots: final(self).slots,
                cache: final(self).cache,
                units: Units {
                    records: final(self).units.records,
                    families: final(self).units.families,
                    tables: final(self).units.tables,
                    borrowers: final(self).units.borrowers,
                    retired_tables: final(self).units.retired_tables,
                    dependencies: final(self).units.dependencies,
                    hcq_failure: final(self).units.hcq_failure,
                    ..old(self).units
                },
                ..*old(self)
            }),
            publishes(*old(self), *final(self), prepared, cursor, room, r),
    {
        if let Err(error) = self.check_publications(&prepared.publications) {
            return Err((prepared, error));
        }
        let tier = prepared.unit.input.tier;
        if tier == Tier::Hcq {
            if let Some(error) = self.units.hcq_failure {
                return Err((prepared, error));
            }
        }
        if self.is_outdated(&prepared, cursor) {
            return Err((prepared, Error::StalePublication));
        }
        let used: usize = self.units.dependencies.len();
        if room < used || room - used < prepared.unit.input.dependencies.len() {
            return Err((prepared, Error::StalePublication));
        }
        if let Err(error) = self.units.records.next_handle() {
            let error = Error::Exhausted(error);
            self.publication_failure(error, tier);
            return Err((prepared, error));
        }
        if prepared.family.is_some() {
            if let Err(error) = self.units.families.next_handle() {
                let error = Error::Exhausted(error);
                self.publication_failure(error, tier);
                return Err((prepared, error));
            }
            if self.units.overlaps_family(&prepared.unit.input.instructions) {
                return Err((prepared, Error::StalePublication));
            }
        }
        let retired = self.core.execution;
        let next: ExecutionEpoch = match self.core.executions.next_id() {
            Ok(next) => next,
            Err(error) => {
                let error = Error::Exhausted(error);
                proof {
                    lemma_units_alike(*old(self), *self);
                }
                self.publication_failure(error, tier);
                return Err((prepared, error));
            },
        };
        proof {
            assert forall|i: int|
                0 <= i < prepared.publications@.len() implies self.slots@.dom().contains(
                (#[trigger] prepared.publications@[i]).slot,
            ) by {
                assert(old(self).current(prepared.publications@[i]));
            }
            lemma_units_alike(*old(self), *self);
        }
        let (replaces, replaced) = self.replaced_units(&prepared.publications);
        let mut cutover: Option<MaintenanceSequence> = None;
        if tier == Tier::Lcq && replaces {
            let process: u64 = self.identity;
            match self.core.request(process, Reason::TierCutover) {
                Ok(ticket) => {
                    cutover = Some(ticket.sequence);
                },
                Err(error) => {
                    proof {
                        lemma_units_alike(*old(self), *self);
                    }
                    return Err((prepared, error));
                },
            }
        }
        self.core.execution = next;
        proof {
            lemma_units_alike(*old(self), *self);
            assert(self.slots == old(self).slots);
            assert forall|i: int, j: int|
                0 <= i < j < prepared.publications@.len() implies (
            #[trigger] prepared.publications@[i]).slot != (
            #[trigger] prepared.publications@[j]).slot by {
                assert(old(self).current(prepared.publications@[i]));
                assert(old(self).current(prepared.publications@[j]));
            }
        }
        let ghost cut = *self;
        let slots = Lifetime::publication_slots(&prepared.publications);
        let segment: usize = prepared.unit.input.code.allocation.segment;
        let table_bytes: usize = prepared.table_charge.bytes;
        let held: usize = prepared.held.bytes;
        let ghost original = prepared;
        proof {
            assert(slots@ =~= Seq::new(
                prepared.publications@.len(),
                |i: int| prepared.publications@[i].slot,
            ));
        }
        self.replace_payloads(&prepared.publications, &prepared.payloads);
        let unit = self.install_record(prepared, slots, retired);
        let ghost added = *self;
        if let Some(sequence) = cutover {
            proof {
                assert forall|k: int| 0 <= k < replaced@.len() implies added.units.records@.dom().contains(
                    #[trigger] replaced@[k],
                ) by {
                    assert(cut.units.records@.dom().contains(replaced@[k]));
                }
            }
            self.supersede(&replaced, sequence);
        }
        let ghost marked = *self;
        let none: Vec<Interval> = Vec::new();
        let mut all: Vec<Interval> = Vec::new();
        let mut generation = crate::abi::identity::Identity::from_nonzero(1);
        proof {
            assert(self.units.attributes(segment as int));
        }
        if let Some(record) = self.units.records.get(unit) {
            generation = record.unit.input.code.allocation.generation;
            let current = match &self.units.tables[segment] {
                Some(table) => &table.intervals,
                None => &none,
            };
            if let Some(extended) = extend_intervals(current, &record.unit.input, unit) {
                all = extended;
            }
        }
        let table = Table {
            generation,
            installed: retired.get(),
            intervals: all,
            charge: MetadataLease { bytes: table_bytes },
        };
        proof {
            let faults = original.unit.input.faults@.len();
            assert(self.units.tables == old(self).units.tables);
            assert(!code_overlaps(original.unit.input, old(self).intervals_at(segment as int)));
            assert forall|k: int| 0 <= k < table.intervals@.len() implies self.units.names_access(
                #[trigger] table.intervals@[k],
                segment as int,
            ) by {
                let x = table.intervals@[k];
                assert(table.intervals@.contains(x));
                if old(self).intervals_at(segment as int).contains(x) {
                    let j = choose|j: int|
                        0 <= j < old(self).intervals_at(segment as int).len() && old(
                            self,
                        ).intervals_at(segment as int)[j] == x;
                    assert(old(self).units.attributes(segment as int));
                    let intervals = old(self).units.tables@[segment as int]->0.intervals@;
                    assert(intervals[j] == x);
                    assert(old(self).units.names_access(intervals[j], segment as int));
                    assert(added.units.records@.dom().contains(x.unit));
                } else {
                    let j = choose|j: int|
                        0 <= j < faults && x == #[trigger] unit_interval(
                            original.unit.input,
                            unit,
                            j,
                        );
                    assert(x.unit == unit);
                    assert(added.units.records@.dom().contains(unit));
                    assert(!replaced@.contains(unit)) by {
                        if replaced@.contains(unit) {
                            let i = choose|i: int| 0 <= i < replaced@.len() && replaced@[i] == unit;
                            assert(cut.units.records@.dom().contains(replaced@[i]));
                        }
                    }
                }
            }
        }
        self.install_table(segment, table, retired);
        self.refund(MetadataLease { bytes: held });
        proof {
            lemma_published(*old(self), *self, cut, added, marked, original, unit, replaced@, cutover);
            assert(published_core(old(self).core, self.core, cutover));
            assert(published_table(*old(self), *self, original, unit));
        }
        Ok(unit)
    }
}

/// A new record leaves the old ones in order.
proof fn lemma_record_added(before: Lifetime, after: Lifetime, unit: Handle)
    requires
        before.wf(),
        after.units.records.wf(),
        !before.units.records@.dom().contains(unit),
        after.units.records@ == before.units.records@.insert(unit, after.units.records@[unit]),
        after == (Lifetime {
            units: Units { records: after.units.records, ..before.units },
            ..before
        }),
        ({
            let record = after.units.records@[unit];
            &&& record.slots@.len() == record.unit.input.entries@.len()
            &&& record.unit.input.code.allocation.segment < SEGMENTS
            &&& record.published.id() < before.core.execution.id()
            &&& !(record.lifecycle is Retired)
            &&& record.detached is None
            &&& forall|i: int|
                0 <= i < record.slots@.len() ==> before.slots@.dom().contains(
                    #[trigger] record.slots@[i],
                )
        }),
    ensures
        after.wf(),
{
    assert forall|segment: int| 0 <= segment < SEGMENTS implies #[trigger] after.units.attributes(
        segment,
    ) by {
        assert(before.units.attributes(segment));
        if after.units.tables@[segment] is Some {
            let table = after.units.tables@[segment]->0;
            assert forall|k: int| 0 <= k < table.intervals@.len() implies after.units.names_access(
                #[trigger] table.intervals@[k],
                segment,
            ) by {
                assert(before.units.names_access(table.intervals@[k], segment));
            }
        }
    }
    assert forall|other: Handle, i: int|
        #![trigger after.units.records@[other].slots@[i]]
        after.units.records@.dom().contains(other) && 0 <= i
            < after.units.records@[other].slots@.len() implies after.slots@.dom().contains(
        after.units.records@[other].slots@[i],
    ) by {
        if other != unit {
            assert(before.slots@.dom().contains(before.units.records@[other].slots@[i]));
        }
    }
}

proof fn lemma_published(
    before: Lifetime,
    after: Lifetime,
    cut: Lifetime,
    added: Lifetime,
    marked: Lifetime,
    prepared: PreparedUnit,
    unit: Handle,
    replaced: Seq<Handle>,
    cutover: Option<MaintenanceSequence>,
)
    requires
        cut.units == before.units,
        cut.slots == before.slots,
        !before.units.records@.dom().contains(unit),
        added.units.records@ == before.units.records@.insert(unit, added.units.records@[unit]),
        after.units.records == marked.units.records,
        ({
            let record = added.units.records@[unit];
            &&& record.unit == prepared.unit
            &&& record.published == before.core.execution
            &&& record.lifecycle == Lifecycle::Published
            &&& record.slots@ == Seq::new(
                prepared.publications@.len(),
                |i: int| prepared.publications@[i].slot,
            )
            &&& record.retirement is None
            &&& record.detached is None
            &&& record.snapshots == 0
            &&& record.pins == 0
            &&& record.charge == prepared.charge
            &&& (record.family is Some) == (prepared.family is Some)
        }),
        forall|k: int|
            0 <= k < replaced.len() ==> before.units.records@.dom().contains(#[trigger] replaced[k])
                && before.is_replaced(prepared, before.units.records@[replaced[k]]),
        match cutover {
            None => marked.units.records == added.units.records,
            Some(sequence) => {
                &&& marked.units.records@.dom() == added.units.records@.dom()
                &&& forall|other: Handle| #[trigger]
                    added.units.records@.dom().contains(other) ==> marked.units.records@[other]
                        == if replaced.contains(other) {
                        superseded(added.units.records@[other], sequence)
                    } else {
                        added.units.records@[other]
                    }
            },
        },
        forall|i: int|
            0 <= i < prepared.publications@.len() && before.slots@[(
            #[trigger] prepared.publications@[i]).slot].payload.lcq_of() is Some ==> {
                ||| forall|other: Handle| #[trigger]
                    before.units.records@.dom().contains(other) ==> !is_unit(
                        before.units.records@[other],
                        before.slots@[prepared.publications@[i].slot].payload.lcq_of()->0,
                    )
                ||| exists|k: int|
                    0 <= k < replaced.len() && is_unit(
                        before.units.records@[#[trigger] replaced[k]],
                        before.slots@[prepared.publications@[i].slot].payload.lcq_of()->0,
                    )
            },
    ensures
        published_records(before, after, prepared, unit, cutover),
{
    assert(!replaced.contains(unit)) by {
        if replaced.contains(unit) {
            let k = choose|k: int| 0 <= k < replaced.len() && replaced[k] == unit;
            assert(before.units.records@.dom().contains(replaced[k]));
        }
    }
    assert(added.units.records@.dom() =~= before.units.records@.dom().insert(unit));
    assert(added.units.records@.dom().contains(unit));
    assert forall|other: Handle| #[trigger] before.units.records@.dom().contains(other) implies {
        ||| after.units.records@[other] == before.units.records@[other]
        ||| cutover is Some && before.is_replaced(prepared, before.units.records@[other])
            && after.units.records@[other] == superseded(before.units.records@[other], cutover->0)
    } by {
        assert(added.units.records@.dom().contains(other));
        if cutover is Some && replaced.contains(other) {
            let k = choose|k: int| 0 <= k < replaced.len() && replaced[k] == other;
            assert(before.is_replaced(prepared, before.units.records@[replaced[k]]));
        }
    }
    if cutover is Some {
        assert forall|i: int|
            0 <= i < prepared.publications@.len() && before.slots@[(
            #[trigger] prepared.publications@[i]).slot].payload.lcq_of() is Some implies {
            ||| forall|other: Handle| #[trigger]
                before.units.records@.dom().contains(other) ==> !is_unit(
                    before.units.records@[other],
                    before.slots@[prepared.publications@[i].slot].payload.lcq_of()->0,
                )
            ||| exists|other: Handle| #[trigger]
                before.units.records@.dom().contains(other) && is_unit(
                    before.units.records@[other],
                    before.slots@[prepared.publications@[i].slot].payload.lcq_of()->0,
                ) && after.units.records@[other].lifecycle == Lifecycle::Superseded
        } by {
            let lcq = before.slots@[prepared.publications@[i].slot].payload.lcq_of()->0;
            if exists|k: int|
                0 <= k < replaced.len() && is_unit(
                    before.units.records@[#[trigger] replaced[k]],
                    lcq,
                ) {
                let k = choose|k: int|
                    0 <= k < replaced.len() && is_unit(
                        before.units.records@[#[trigger] replaced[k]],
                        lcq,
                    );
                let other = replaced[k];
                assert(before.units.records@.dom().contains(other));
                assert(replaced.contains(other));
                assert(added.units.records@.dom().contains(other));
                assert(after.units.records@[other].lifecycle == Lifecycle::Superseded);
            }
        }
    }
}

} // verus!
