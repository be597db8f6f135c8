//! Removal of units: unlinking, and the two grace periods before storage is reused.

use vstd::prelude::*;
use super::coordinator::{exhausted, Batch, Coordinator, Error, Reason, Ticket, Transition};
use super::prepare::pinned;
use super::process::{
    count_down, count_up, decrement, increment, refunded, DispatchSlot, Family, Lifecycle, Lifetime,
    Retirement, UnitRecord, Units,
};
use super::registry::Handle;
use super::units::lemma_units_alike;
use crate::abi::dispatch::{DispatchPayload, HcqEntry, PublishedEntry};
use crate::abi::identity::{
    CodeUnitId, CodeVersion, ExecutionEpoch, MaintenanceSequence, ReachabilityVersion,
};
use crate::abi::keys::BlockKey;

verus! {

/// A unit of one process.
#[derive(Clone, Copy, Debug, PartialEq, Eq, Structural)]
pub struct UnitHandle {
    pub unit: Handle,
    pub process: u64,
}

/// The entry belongs to this version of the unit.
pub open spec fn names(entry: Option<PublishedEntry>, id: CodeUnitId, version: CodeVersion) -> bool {
    entry matches Some(entry) && entry.unit == id && entry.version == version
}

pub open spec fn hcq_entry(payload: DispatchPayload) -> Option<PublishedEntry> {
    match payload.hcq_of() {
        Some(hcq) => Some(hcq.entry),
        None => None,
    }
}

/// The payload publishes an entry of this version of the unit.
pub open spec fn names_unit(payload: DispatchPayload, id: CodeUnitId, version: CodeVersion) -> bool {
    names(payload.lcq_of(), id, version) || names(hcq_entry(payload), id, version)
}

fn entry_names(entry: Option<PublishedEntry>, id: CodeUnitId, version: CodeVersion) -> (r: bool)
    ensures
        r == names(entry, id, version),
{
    match entry {
        Some(entry) => entry.unit == id && entry.version == version,
        None => false,
    }
}

fn payload_names(payload: &DispatchPayload, id: CodeUnitId, version: CodeVersion) -> (r: bool)
    ensures
        r == names_unit(*payload, id, version),
{
    let hcq = match payload.hcq() {
        Some(hcq) => Some(hcq.entry),
        None => None,
    };
    entry_names(payload.lcq(), id, version) || entry_names(hcq, id, version)
}

/// What is left of the payload without the unit.
pub open spec fn lcq_without(payload: DispatchPayload, id: CodeUnitId, version: CodeVersion) -> Option<
    PublishedEntry,
> {
    if names(payload.lcq_of(), id, version) {
        None
    } else {
        payload.lcq_of()
    }
}

pub open spec fn hcq_without(payload: DispatchPayload, id: CodeUnitId, version: CodeVersion) -> Option<
    HcqEntry,
> {
    if names(hcq_entry(payload), id, version) {
        None
    } else {
        payload.hcq_of()
    }
}

/// The slot without the unit: an empty slot is retired.
pub open spec fn slot_without(
    before: DispatchSlot,
    after: DispatchSlot,
    id: CodeUnitId,
    version: CodeVersion,
    retired: ExecutionEpoch,
) -> bool {
    &&& after.payload.lcq_of() == lcq_without(before.payload, id, version)
    &&& after.payload.hcq_of() == hcq_without(before.payload, id, version)
    &&& after.retired == if after.payload.preferred_of() is None {
        Some(retired)
    } else {
        before.retired
    }
    &&& after.key == before.key
    &&& after.charge == before.charge
}

/// Every slot that the unit left has a reachability beyond `last`.
pub open spec fn slots_renewed(
    before: Lifetime,
    after: Lifetime,
    slots: Seq<Handle>,
    id: CodeUnitId,
    version: CodeVersion,
    last: u64,
) -> bool {
    forall|slot: Handle| #[trigger]
        before.slots@.dom().contains(slot) && slots.contains(slot) && names_unit(
            before.slots@[slot].payload,
            id,
            version,
        ) ==> after.slots@[slot].payload.reachability_of().id() > last
}

/// The state after the unit left the slots in the list: every other slot is
/// untouched, and exactly the keys of emptied slots are gone.
pub open spec fn slots_without(
    before: Lifetime,
    after: Lifetime,
    slots: Seq<Handle>,
    id: CodeUnitId,
    version: CodeVersion,
    retired: ExecutionEpoch,
) -> bool {
    &&& after.slots@.dom() == before.slots@.dom()
    &&& forall|slot: Handle| #[trigger]
        before.slots@.dom().contains(slot) ==> if slots.contains(slot) && names_unit(
            before.slots@[slot].payload,
            id,
            version,
        ) {
            slot_without(before.slots@[slot], after.slots@[slot], id, version, retired)
        } else {
            after.slots@[slot] == before.slots@[slot]
        }
    &&& forall|key: BlockKey| #[trigger]
        after.keys@.dom().contains(key) <==> before.keys@.dom().contains(key)
            && after.slots@[before.keys@[key]].retired is None
    &&& forall|key: BlockKey| #[trigger]
        after.keys@.dom().contains(key) ==> after.keys@[key] == before.keys@[key]
}

impl Lifetime {
    /// Some slot still publishes the unit.
    pub open spec fn rooted(&self, record: UnitRecord) -> bool {
        exists|i: int|
            0 <= i < record.slots@.len() && names_unit(
                self.slots@[#[trigger] record.slots@[i]].payload,
                record.unit.id,
                record.unit.version,
            )
    }

    pub(crate) fn is_rooted(&self, unit: Handle) -> (r: bool)
        requires
            self.wf(),
            self.units.records@.dom().contains(unit),
        ensures
            r == self.rooted(self.units.records@[unit]),
    {
        if let Some(record) = self.units.records.get(unit) {
            let mut i: usize = 0;
            while i < record.slots.len()
                invariant
                    i <= record.slots@.len(),
                    self.wf(),
                    self.units.records@.dom().contains(unit),
                    *record == self.units.records@[unit],
                    forall|j: int|
                        0 <= j < i ==> !names_unit(
                            self.slots@[#[trigger] record.slots@[j]].payload,
                            record.unit.id,
                            record.unit.version,
                        ),
                decreases record.slots@.len() - i,
            {
                assert(self.slots@.dom().contains(self.units.records@[unit].slots@[i as int]));
                if let Some(slot) = self.slots.get(record.slots[i]) {
                    if payload_names(&slot.payload, record.unit.id, record.unit.version) {
                        return true;
                    }
                }
                i = i + 1;
            }
        }
        false
    }

    /// Requests maintenance. A shutdown marks every unit that is not retired yet.
    pub fn request(&mut self, reason: Reason) -> (r: Result<Ticket, Error>)
        requires
            old(self).wf(),
        ensures
            final(self).wf(),
            *final(self) == (Lifetime {
                core: final(self).core,
                units: Units { records: final(self).units.records, ..old(self).units },
                ..*old(self)
            }),
            final(self).units.records@.dom() == old(self).units.records@.dom(),
            match r {
                Ok(ticket) => {
                    &&& old(self).core.failure is None && !old(self).core.shutdown
                    &&& old(self).core.request_exhausts() is None
                    &&& ticket.process == old(self).identity && ticket.reason == reason
                    &&& old(self).core.requested(final(self).core, ticket)
                    &&& forall|unit: Handle| #[trigger]
                        old(self).units.records@.dom().contains(unit) ==> final(
                            self
                        ).units.records@[unit] == if reason == Reason::Shutdown && !(old(
                            self,
                        ).units.records@[unit].lifecycle is Retired) {
                            UnitRecord {
                                lifecycle: Lifecycle::Invalidating,
                                retirement: Some(
                                    Retirement { reason, sequence: ticket.sequence },
                                ),
                                ..old(self).units.records@[unit]
                            }
                        } else {
                            old(self).units.records@[unit]
                        }
                },
                Err(error) => {
                    &&& final(self).units.records == old(self).units.records
                    &&& if old(self).core.failure is Some {
                        error == old(self).core.failure->0 && final(self).core == old(self).core
                    } else if old(self).core.shutdown {
                        error == Error::Shutdown && final(self).core == old(self).core
                    } else {
                        &&& old(self).core.request_exhausts() is Some
                        &&& exhausted(error, old(self).core.request_exhausts()->0)
                        &&& final(self).core == (Coordinator {
                            sequences: final(self).core.sequences,
                            ..old(self).core.failed_with(error)
                        })
                    }
                },
            },
    {
        let process: u64 = self.identity;
        let result = self.core.request(process, reason);
        proof {
            lemma_units_alike(*old(self), *self);
        }
        let ticket = result?;
        if reason == Reason::Shutdown {
            self.mark_shutdown(ticket.sequence);
        }
        Ok(ticket)
    }

    fn mark_shutdown(&mut self, sequence: MaintenanceSequence)
        requires
            old(self).wf(),
        ensures
            final(self).wf(),
            *final(self) == (Lifetime {
                units: Units { records: final(self).units.records, ..old(self).units },
                ..*old(self)
            }),
            final(self).units.records@.dom() == old(self).units.records@.dom(),
            forall|unit: Handle| #[trigger]
                old(self).units.records@.dom().contains(unit) ==> final(self).units.records@[unit]
                    == if !(old(self).units.records@[unit].lifecycle is Retired) {
                    UnitRecord {
                        lifecycle: Lifecycle::Invalidating,
                        retirement: Some(Retirement { reason: Reason::Shutdown, sequence }),
                        ..old(self).units.records@[unit]
                    }
                } else {
                    old(self).units.records@[unit]
                },
    {
        let handles = self.units.records.handles();
        let mut k: usize = 0;
        while k < handles.len()
            invariant
                k <= handles@.len(),
                self.wf(),
                *self == (Lifetime {
                    units: Units { records: self.units.records, ..old(self).units },
                    ..*old(self)
                }),
                self.units.records@.dom() == old(self).units.records@.dom(),
                forall|j: int|
                    0 <= j < handles@.len() ==> old(self).units.records@.dom().contains(
                        #[trigger] handles@[j],
                    ),
                forall|h: Handle| #[trigger]
                    old(self).units.records@.dom().contains(h) ==> handles@.contains(h),
                forall|i: int, j: int|
                    0 <= i < j < handles@.len() ==> (#[trigger] handles@[i]).index < (
                    #[trigger] handles@[j]).index,
                forall|j: int|
                    0 <= j < k ==> self.units.records@[#[trigger] handles@[j]] == if !(old(
                        self,
                    ).units.records@[handles@[j]].lifecycle is Retired) {
                        UnitRecord {
                            lifecycle: Lifecycle::Invalidating,
                            retirement: Some(Retirement { reason: Reason::Shutdown, sequence }),
                            ..old(self).units.records@[handles@[j]]
                        }
                    } else {
                        old(self).units.records@[handles@[j]]
                    },
                forall|j: int|
                    k <= j < handles@.len() ==> self.units.records@[#[trigger] handles@[j]] == old(
                        self,
                    ).units.records@[handles@[j]],
            decreases handles@.len() - k,
        {
            let unit = handles[k];
            assert(old(self).units.records@.dom().contains(handles@[k as int]));
            assert(self.units.records@.dom().contains(unit));
            let ghost before = self.units.records@;
            if let Some(record) = self.units.records.get(unit) {
                if !matches!(record.lifecycle, Lifecycle::Retired(_)) {
                    let snapshots: usize = record.snapshots;
                    let pins: usize = record.pins;
                    self.amend(
                        unit,
                        Lifecycle::Invalidating,
                        Some(Retirement { reason: Reason::Shutdown, sequence }),
                        snapshots,
                        pins,
                    );
                }
            }
            proof {
                assert(self.units.records@.dom() =~= old(self).units.records@.dom());
                assert forall|j: int| 0 <= j < handles@.len() && j != k implies self.units.records@[
                    #[trigger] handles@[j]
                ] == before[handles@[j]] by {
                    if j < k {
                        assert(handles@[j].index < handles@[k as int].index);
                    } else {
                        assert(handles@[k as int].index < handles@[j].index);
                    }
                }
            }
            k = k + 1;
        }
        proof {
            assert forall|unit: Handle| #[trigger] old(self).units.records@.dom().contains(
                unit,
            ) implies self.units.records@[unit] == if !(old(
                self,
            ).units.records@[unit].lifecycle is Retired) {
                UnitRecord {
                    lifecycle: Lifecycle::Invalidating,
                    retirement: Some(Retirement { reason: Reason::Shutdown, sequence }),
                    ..old(self).units.records@[unit]
                }
            } else {
                old(self).units.records@[unit]
            } by {
                let j = choose|j: int| 0 <= j < handles@.len() && handles@[j] == unit;
                assert(handles@[j] == unit);
            }
        }
    }

    /// The unit may still be looked at or removed.
    pub open spec fn resident(&self, handle: UnitHandle) -> bool {
        &&& handle.process == self.identity
        &&& self.units.records@.dom().contains(handle.unit)
        &&& self.units.records@[handle.unit].lifecycle is Published
            || self.units.records@[handle.unit].lifecycle is Superseded
    }

    fn is_resident(&self, handle: UnitHandle) -> (r: bool)
        ensures
            r == self.resident(handle),
    {
        if handle.process != self.identity {
            return false;
        }
        match self.units.records.get(handle.unit) {
            Some(record) => matches!(record.lifecycle, Lifecycle::Published | Lifecycle::Superseded),
            None => false,
        }
    }

    /// Takes a reference that keeps the unit's code. Retired code gets no new one.
    pub fn snapshot(&mut self, handle: UnitHandle) -> (r: Result<(), Error>)
        requires
            old(self).wf(),
        ensures
            final(self).wf(),
            match r {
                Ok(_) => {
                    &&& old(self).core.admitted() is Ok && old(self).resident(handle)
                    &&& final(self).units.records@ == old(self).units.records@.insert(
                        handle.unit,
                        UnitRecord {
                            snapshots: count_up(old(self).units.records@[handle.unit].snapshots),
                            ..old(self).units.records@[handle.unit]
                        },
                    )
                },
                Err(error) => {
                    &&& *final(self) == *old(self)
                    &&& match old(self).core.admitted() {
                        Err(closed) => error == closed,
                        Ok(_) => !old(self).resident(handle) && error == Error::StaleUnit,
                    }
                },
            },
            *final(self) == (Lifetime {
                units: Units { records: final(self).units.records, ..old(self).units },
                ..*old(self)
            }),
    {
        self.core.open()?;
        if !self.is_resident(handle) {
            return Err(Error::StaleUnit);
        }
        if let Some(record) = self.units.records.get(handle.unit) {
            let lifecycle = record.lifecycle;
            let retirement = record.retirement;
            let snapshots: usize = increment(record.snapshots);
            let pins: usize = record.pins;
            self.amend(handle.unit, lifecycle, retirement, snapshots, pins);
        }
        Ok(())
    }

    /// Takes another reference beside one that is held. That needs no admission, and
    /// the unit may be retired.
    pub fn share_snapshot(&mut self, handle: UnitHandle) -> (r: Result<(), Error>)
        requires
            old(self).wf(),
        ensures
            final(self).wf(),
            if old(self).snapshot_held(handle) {
                &&& r is Ok
                &&& final(self).units.records@ == old(self).units.records@.insert(
                    handle.unit,
                    UnitRecord {
                        snapshots: count_up(old(self).units.records@[handle.unit].snapshots),
                        ..old(self).units.records@[handle.unit]
                    },
                )
            } else {
                r == Err::<(), Error>(Error::StaleUnit) && *final(self) == *old(self)
            },
            *final(self) == (Lifetime {
                units: Units { records: final(self).units.records, ..old(self).units },
                ..*old(self)
            }),
    {
        if handle.process != self.identity {
            return Err(Error::StaleUnit);
        }
        match self.units.records.get(handle.unit) {
            Some(record) => {
                if record.snapshots == 0 {
                    return Err(Error::StaleUnit);
                }
                let lifecycle = record.lifecycle;
                let retirement = record.retirement;
                let snapshots: usize = increment(record.snapshots);
                let pins: usize = record.pins;
                proof {
                    assert(self.units.records@.dom().contains(handle.unit));
                }
                self.amend(handle.unit, lifecycle, retirement, snapshots, pins);
                Ok(())
            },
            None => Err(Error::StaleUnit),
        }
    }

    /// Someone holds a reference to the unit.
    pub open spec fn snapshot_held(&self, handle: UnitHandle) -> bool {
        &&& handle.process == self.identity
        &&& self.units.records@.dom().contains(handle.unit)
        &&& self.units.records@[handle.unit].snapshots != 0
    }

    /// Gives a reference back.
    pub fn release_snapshot(&mut self, handle: UnitHandle)
        requires
            old(self).wf(),
        ensures
            final(self).wf(),
            final(self).units.records@ == if handle.process == old(self).identity && old(
                self,
            ).units.records@.dom().contains(handle.unit) {
                old(self).units.records@.insert(
                    handle.unit,
                    UnitRecord {
                        snapshots: count_down(old(self).units.records@[handle.unit].snapshots),
                        ..old(self).units.records@[handle.unit]
                    },
                )
            } else {
                old(self).units.records@
            },
            *final(self) == (Lifetime {
                units: Units { records: final(self).units.records, ..old(self).units },
                ..*old(self)
            }),
    {
        if handle.process == self.identity {
            if let Some(record) = self.units.records.get(handle.unit) {
                let lifecycle = record.lifecycle;
                let retirement = record.retirement;
                let snapshots: usize = decrement(record.snapshots);
                let pins: usize = record.pins;
                proof {
                    assert(self.units.records@.dom().contains(handle.unit));
                }
                self.amend(handle.unit, lifecycle, retirement, snapshots, pins);
            }
        }
    }

    /// Registers a unit for removal and closes admission. A unit that a family
    /// relies on stays.
    pub fn retire_unit(&mut self, handle: UnitHandle) -> (r: Result<Ticket, Error>)
        requires
            old(self).wf(),
        ensures
            final(self).wf(),
            *final(self) == (Lifetime {
                core: final(self).core,
                units: Units { records: final(self).units.records, ..old(self).units },
                ..*old(self)
            }),
            match r {
                Ok(ticket) => {
                    &&& old(self).core.failure is None && !old(self).core.shutdown
                    &&& old(self).resident(handle)
                    &&& old(self).units.records@[handle.unit].pins == 0
                    &&& ticket.reason == Reason::Eviction && ticket.process == old(self).identity
                    &&& old(self).core.requested(final(self).core, ticket)
                    &&& final(self).units.records@ == old(self).units.records@.insert(
                        handle.unit,
                        UnitRecord {
                            lifecycle: Lifecycle::Invalidating,
                            retirement: Some(
                                Retirement { reason: Reason::Eviction, sequence: ticket.sequence },
                            ),
                            ..old(self).units.records@[handle.unit]
                        },
                    )
                },
                Err(error) => {
                    &&& final(self).units.records == old(self).units.records
                    &&& if old(self).core.failure is Some {
                        error == old(self).core.failure->0 && *final(self) == *old(self)
                    } else if !old(self).resident(handle) {
                        error == Error::StaleUnit && *final(self) == *old(self)
                    } else if old(self).units.records@[handle.unit].pins != 0 {
                        error == Error::PinnedBaseline && *final(self) == *old(self)
                    } else if old(self).core.shutdown {
                        error == Error::Shutdown && *final(self) == *old(self)
                    } else {
                        &&& old(self).core.request_exhausts() is Some
                        &&& exhausted(error, old(self).core.request_exhausts()->0)
                        &&& final(self).core == (Coordinator {
                            sequences: final(self).core.sequences,
                            ..old(self).core.failed_with(error)
                        })
                    }
                },
            },
    {
        self.core.healthy()?;
        if !self.is_resident(handle) {
            return Err(Error::StaleUnit);
        }
        let mut snapshots: usize = 0;
        if let Some(record) = self.units.records.get(handle.unit) {
            if record.pins != 0 {
                return Err(Error::PinnedBaseline);
            }
            snapshots = record.snapshots;
        }
        let process: u64 = self.identity;
        let result = self.core.request(process, Reason::Eviction);
        proof {
            lemma_units_alike(*old(self), *self);
        }
        let ticket = result?;
        self.amend(
            handle.unit,
            Lifecycle::Invalidating,
            Some(Retirement { reason: Reason::Eviction, sequence: ticket.sequence }),
            snapshots,
            0,
        );
        Ok(ticket)
    }

    /// Work that a round must not acknowledge yet.
    pub open spec fn pending_retirement(&self, reason: Reason, sequence: MaintenanceSequence) -> bool {
        ||| reason == Reason::Shutdown && !self.units.shutdown_finished
        ||| exists|unit: Handle| #[trigger]
            self.units.records@.dom().contains(unit)
                && self.units.records@[unit].retirement is Some
                && self.units.records@[unit].retirement->0.reason == reason
                && self.units.records@[unit].retirement->0.sequence.id() <= sequence.id()
    }

    fn has_pending_retirement(&self, reason: Reason, sequence: MaintenanceSequence) -> (r: bool)
        ensures
            r == self.pending_retirement(reason, sequence),
    {
        if reason == Reason::Shutdown && !self.units.shutdown_finished {
            return true;
        }
        let handles = self.units.records.handles();
        let mut k: usize = 0;
        while k < handles.len()
            invariant
                k <= handles@.len(),
                forall|j: int|
                    0 <= j < handles@.len() ==> self.units.records@.dom().contains(
                        #[trigger] handles@[j],
                    ),
                forall|h: Handle| #[trigger]
                    self.units.records@.dom().contains(h) ==> handles@.contains(h),
                forall|j: int|
                    0 <= j < k ==> !(self.units.records@[#[trigger] handles@[j]].retirement is Some
                        && self.units.records@[handles@[j]].retirement->0.reason == reason
                        && self.units.records@[handles@[j]].retirement->0.sequence.id()
                        <= sequence.id()),
            decreases handles@.len() - k,
        {
            assert(self.units.records@.dom().contains(handles@[k as int]));
            if let Some(record) = self.units.records.get(handles[k]) {
                if let Some(retirement) = record.retirement {
                    if retirement.reason == reason && retirement.sequence.get()
                        <= sequence.get() {
                        return true;
                    }
                }
            }
            k = k + 1;
        }
        false
    }

    /// Some request of the round has work that is not applied.
    pub open spec fn unapplied(&self, batch: Batch) -> bool {
        exists|reason: Reason|
            (#[trigger] batch.sequences.at(reason)) is Some && self.pending_retirement(
                reason,
                batch.sequences.at(reason)->0,
            )
    }

    fn reason_unapplied(&self, batch: &Batch, reason: Reason) -> (r: bool)
        ensures
            r == (batch.sequences.at(reason) is Some && self.pending_retirement(
                reason,
                batch.sequences.at(reason)->0,
            )),
    {
        match batch.sequences.get(reason) {
            Some(sequence) => self.has_pending_retirement(reason, sequence),
            None => false,
        }
    }

    /// Acknowledges a round of requests once its work is applied.
    pub fn complete(
        &mut self,
        transition: &mut Transition,
        batch: Batch,
        defer_links: bool,
    ) -> (r: Result<(), Error>)
        requires
            old(self).wf(),
            old(self).core.owned_by(*old(transition)),
            old(transition).active,
            batch.sequences.issued(old(self).core.sequences.last()),
        ensures
            final(self).wf(),
            *final(self) == (Lifetime { core: final(self).core, ..*old(self) }),
            final(transition).active == old(transition).active,
            match r {
                Ok(_) => {
                    &&& old(self).core.failure is None && !old(self).unapplied(batch)
                    &&& final(transition).defer_links == (old(transition).defer_links
                        || defer_links)
                    &&& forall|reason: Reason| #[trigger]
                        final(self).core.pending.at(reason) == old(self).core.pending_after(
                            batch,
                            defer_links,
                            reason,
                        )
                    &&& forall|reason: Reason| #[trigger]
                        final(self).core.completed.at(reason) == old(self).core.completed_after(
                            batch,
                            defer_links,
                            reason,
                        )
                    &&& final(self).core == (Coordinator {
                        pending: final(self).core.pending,
                        completed: final(self).core.completed,
                        ..old(self).core
                    })
                },
                Err(error) => {
                    &&& *final(self) == *old(self)
                    &&& *final(transition) == *old(transition)
                    &&& match old(self).core.failure {
                        Some(failure) => error == failure,
                        None => old(self).unapplied(batch) && error == Error::MaintenancePending,
                    }
                },
            },
    {
        let unapplied = self.reason_unapplied(&batch, Reason::LinkPatch) || self.reason_unapplied(
            &batch,
            Reason::TierCutover,
        ) || self.reason_unapplied(&batch, Reason::Eviction) || self.reason_unapplied(
            &batch,
            Reason::MappingChange,
        ) || self.reason_unapplied(&batch, Reason::Shutdown);
        proof {
            assert(unapplied == self.unapplied(batch)) by {
                if self.unapplied(batch) {
                    let reason = choose|reason: Reason|
                        (#[trigger] batch.sequences.at(reason)) is Some && self.pending_retirement(
                            reason,
                            batch.sequences.at(reason)->0,
                        );
                    match reason {
                        Reason::LinkPatch => {},
                        Reason::TierCutover => {},
                        Reason::Eviction => {},
                        Reason::MappingChange => {},
                        Reason::Shutdown => {},
                    }
                }
                if unapplied {
                    assert(batch.sequences.at(Reason::LinkPatch) is Some
                        || batch.sequences.at(Reason::TierCutover) is Some || batch.sequences.at(
                        Reason::Eviction,
                    ) is Some || batch.sequences.at(Reason::MappingChange) is Some
                        || batch.sequences.at(Reason::Shutdown) is Some);
                }
            }
        }
        self.core.acknowledge(transition, batch, defer_links, unapplied)
    }

    /// Takes the unit out of one slot.
    fn unlink_slot(
        &mut self,
        slot: Handle,
        id: CodeUnitId,
        version: CodeVersion,
        reachability: ReachabilityVersion,
        retired: ExecutionEpoch,
    )
        requires
            old(self).wf(),
            old(self).slots@.dom().contains(slot),
            names_unit(old(self).slots@[slot].payload, id, version),
            reachability.id() <= old(self).reachabilities.last(),
            retired.id() < old(self).core.execution.id(),
        ensures
            final(self).wf(),
            *final(self) == (Lifetime {
                slots: final(self).slots,
                keys: final(self).keys,
                ..*old(self)
            }),
            final(self).slots@.dom() == old(self).slots@.dom(),
            slot_without(
                old(self).slots@[slot],
                final(self).slots@[slot],
                id,
                version,
                retired,
            ),
            final(self).slots@[slot].payload.reachability_of() == reachability,
            forall|other: Handle|
                other != slot && old(self).slots@.dom().contains(other) ==> #[trigger] final(
                    self
                ).slots@[other] == old(self).slots@[other],
            forall|key: BlockKey| #[trigger]
                final(self).keys@.dom().contains(key) <==> old(self).keys@.dom().contains(key)
                    && final(self).slots@[old(self).keys@[key]].retired is None,
            forall|key: BlockKey| #[trigger]
                final(self).keys@.dom().contains(key) ==> final(self).keys@[key] == old(
                    self,
                ).keys@[key],
    {
        let mut payload = DispatchPayload::new(reachability, None, None);
        let mut key = BlockKey {
            address_space: 0,
            pc: 0,
            profile: 0,
            platform: 0,
            fp: crate::abi::keys::FpSpecialization::Dynamic,
        };
        if let Some(found) = self.slots.get(slot) {
            key = found.key;
            let lcq = if entry_names(found.payload.lcq(), id, version) {
                None
            } else {
                found.payload.lcq()
            };
            let hcq = match found.payload.hcq() {
                Some(hcq) => if entry_names(Some(hcq.entry), id, version) {
                    None
                } else {
                    Some(hcq)
                },
                None => None,
            };
            payload = DispatchPayload::new(reachability, lcq, hcq);
        }
        let empty = payload.preferred().is_none();
        let found = self.slots.get_mut(slot);
        found.payload = payload;
        if empty {
            found.retired = Some(retired);
        }
        if empty {
            if self.keys.get(key) == Some(slot) {
                self.keys.remove(key);
            }
        }
        proof {
            assert(self.slots@.dom() =~= old(self).slots@.dom());
            assert forall|other: BlockKey| #[trigger] self.keys@.dom().contains(other) implies {
                &&& self.slots@.dom().contains(self.keys@[other])
                &&& self.slots@[self.keys@[other]].retired is None
                &&& self.slots@[self.keys@[other]].key == other
            } by {
                assert(old(self).keys@.dom().contains(other));
            }
            assert forall|other: BlockKey| #[trigger]
                self.keys@.dom().contains(other) <==> old(self).keys@.dom().contains(other)
                    && self.slots@[old(self).keys@[other]].retired is None by {
                if old(self).keys@.dom().contains(other) {
                    assert(old(self).slots@.dom().contains(old(self).keys@[other]));
                }
            }
            assert forall|h: Handle| #[trigger] self.slots@.dom().contains(
                h,
            ) implies super::process::retired_before(
                self.slots@[h],
                self.core.execution.id() as int,
            ) && self.slots@[h].payload.reachability_of().id() <= self.reachabilities.last() by {
                assert(old(self).slots@.dom().contains(h));
            }
            assert forall|unit: Handle, i: int|
                #![trigger self.units.records@[unit].slots@[i]]
                self.units.records@.dom().contains(unit) && 0 <= i
                    < self.units.records@[unit].slots@.len() implies self.slots@.dom().contains(
                self.units.records@[unit].slots@[i],
            ) by {
                assert(old(self).slots@.dom().contains(old(self).units.records@[unit].slots@[i]));
            }
        }
    }
}

/// How many of the first `count` slots publish the unit.
pub open spec fn named_slots(process: Lifetime, record: UnitRecord, count: int) -> int
    decreases count,
{
    if count <= 0 {
        0
    } else {
        named_slots(process, record, count - 1) + if names_unit(
            process.slots@[record.slots@[count - 1]].payload,
            record.unit.id,
            record.unit.version,
        ) {
            1int
        } else {
            0
        }
    }
}

/// The slots alone decide how many publish the unit.
pub(crate) proof fn lemma_same_named(a: Lifetime, b: Lifetime, record: UnitRecord, count: int)
    requires
        a.slots == b.slots,
    ensures
        named_slots(a, record, count) == named_slots(b, record, count),
    decreases count,
{
    if count > 0 {
        lemma_same_named(a, b, record, count - 1);
    }
}

proof fn lemma_named_slots(process: Lifetime, record: UnitRecord, low: int, high: int)
    requires
        0 <= low <= high,
    ensures
        0 <= named_slots(process, record, low) <= named_slots(process, record, high),
        named_slots(process, record, high) <= high,
    decreases high,
{
    if high > 0 {
        if low < high {
            lemma_named_slots(process, record, low, high - 1);
        } else {
            lemma_named_slots(process, record, low - 1, high - 1);
        }
    }
}

/// What is left of the family's promises once its unit is unlinked.
pub open spec fn family_dissolved(before: Lifetime, after: Lifetime, unit: Handle) -> bool {
    let record = before.units.records@[unit];
    let retired = UnitRecord {
        lifecycle: Lifecycle::Retired(before.core.execution),
        retirement: None,
        ..record
    };
    if record.family is Some && before.units.families@.dom().contains(record.family->0) {
        &&& after.units.families@ == before.units.families@.remove(record.family->0)
        &&& pinned(
            before.units.records@.insert(unit, retired),
            after.units.records@,
            before.units.families@[record.family->0].baselines@,
            false,
        )
        &&& after.cache == refunded(
            before.cache,
            before.units.families@[record.family->0].charge.bytes as int,
        )
    } else {
        &&& after.units.families@ == before.units.families@
        &&& after.cache == before.cache
        &&& after.units.records@ == before.units.records@.insert(unit, retired)
    }
}

impl Lifetime {
    fn count_named(&self, unit: Handle) -> (r: usize)
        requires
            self.wf(),
            self.units.records@.dom().contains(unit),
        ensures
            r == named_slots(
                *self,
                self.units.records@[unit],
                self.units.records@[unit].slots@.len() as int,
            ),
    {
        let mut count: usize = 0;
        if let Some(record) = self.units.records.get(unit) {
            let mut i: usize = 0;
            while i < record.slots.len()
                invariant
                    i <= record.slots@.len(),
                    count <= i,
                    self.wf(),
                    self.units.records@.dom().contains(unit),
                    *record == self.units.records@[unit],
                    count == named_slots(*self, *record, i as int),
                decreases record.slots@.len() - i,
            {
                assert(self.slots@.dom().contains(self.units.records@[unit].slots@[i as int]));
                if let Some(slot) = self.slots.get(record.slots[i]) {
                    if payload_names(&slot.payload, record.unit.id, record.unit.version) {
                        count = count + 1;
                    }
                }
                i = i + 1;
            }
        }
        count
    }

    /// Takes the unit out of all its slots.
    fn unlink_slots(
        &mut self,
        unit: Handle,
        identities: &Vec<ReachabilityVersion>,
        retired: ExecutionEpoch,
        Ghost(start): Ghost<Lifetime>,
    )
        requires
            old(self).wf(),
            old(self).units.records@.dom().contains(unit),
            start.slots == old(self).slots,
            identities@.len() == named_slots(
                start,
                old(self).units.records@[unit],
                old(self).units.records@[unit].slots@.len() as int,
            ),
            forall|k: int|
                0 <= k < identities@.len() ==> start.reachabilities.last() < (
                #[trigger] identities@[k]).id() <= old(self).reachabilities.last(),
            retired.id() < old(self).core.execution.id(),
        ensures
            final(self).wf(),
            *final(self) == (Lifetime {
                slots: final(self).slots,
                keys: final(self).keys,
                ..*old(self)
            }),
            slots_without(
                *old(self),
                *final(self),
                old(self).units.records@[unit].slots@,
                old(self).units.records@[unit].unit.id,
                old(self).units.records@[unit].unit.version,
                retired,
            ),
            slots_renewed(
                *old(self),
                *final(self),
                old(self).units.records@[unit].slots@,
                old(self).units.records@[unit].unit.id,
                old(self).units.records@[unit].unit.version,
                start.reachabilities.last(),
            ),
    {
        let ghost record = self.units.records@[unit];
        let mut index: usize = 0;
        let mut used: usize = 0;
        let mut length: usize = 0;
        if let Some(found) = self.units.records.get(unit) {
            length = found.slots.len();
        }
        proof {
            assert(record.slots@.take(0) =~= Seq::<Handle>::empty());
            lemma_nothing_unlinked(*self, record, retired);
        }
        while index < length
            invariant
                index <= length,
                length == record.slots@.len(),
                old(self).wf(),
                self.wf(),
                *self == (Lifetime { slots: self.slots, keys: self.keys, ..*old(self) }),
                start.slots == old(self).slots,
                old(self).units.records@.dom().contains(unit),
                record == old(self).units.records@[unit],
                used <= named_slots(start, record, index as int),
                identities@.len() == named_slots(start, record, length as int),
                forall|k: int|
                    0 <= k < identities@.len() ==> start.reachabilities.last() < (
                    #[trigger] identities@[k]).id() <= old(self).reachabilities.last(),
                retired.id() < old(self).core.execution.id(),
                slots_without(
                    *old(self),
                    *self,
                    record.slots@.take(index as int),
                    record.unit.id,
                    record.unit.version,
                    retired,
                ),
                slots_renewed(
                    *old(self),
                    *self,
                    record.slots@.take(index as int),
                    record.unit.id,
                    record.unit.version,
                    start.reachabilities.last(),
                ),
            decreases length - index,
        {
            let ghost before = *self;
            let mut slot = Handle { index: 0, generation: 0 };
            let mut named = false;
            let mut id: Option<CodeUnitId> = None;
            let mut version: Option<CodeVersion> = None;
            if let Some(found) = self.units.records.get(unit) {
                slot = found.slots[index];
                id = Some(found.unit.id);
                version = Some(found.unit.version);
                proof {
                    assert(self.slots@.dom().contains(
                        self.units.records@[unit].slots@[index as int],
                    ));
                }
                if let Some(current) = self.slots.get(slot) {
                    named = payload_names(&current.payload, found.unit.id, found.unit.version);
                }
            }
            proof {
                assert(old(self).slots@.dom().contains(slot));
                lemma_named_slots(start, record, index + 1, length as int);
                if named {
                    lemma_still_named(*old(self), *self, record, index as int, retired);
                }
            }
            if named {
                if let (Some(id), Some(version)) = (id, version) {
                    self.unlink_slot(slot, id, version, identities[used], retired);
                    used = used + 1;
                }
            }
            proof {
                lemma_slot_unlinked(*old(self), before, *self, record, index as int, retired, named);
                lemma_slot_renewed(
                    *old(self),
                    before,
                    *self,
                    record,
                    index as int,
                    retired,
                    named,
                    start.reachabilities.last(),
                );
            }
            index = index + 1;
        }
        proof {
            assert(record.slots@.take(length as int) =~= record.slots@);
        }
    }

    /// Takes a unit that is registered for removal out of every slot, and ends the
    /// promises of its family. Replaced code that is still in use stays.
    pub fn unlink(&mut self, transition: &Transition, unit: Handle) -> (r: Result<bool, Error>)
        requires
            old(self).wf(),
        ensures
            final(self).wf(),
            final(self).readers == old(self).readers,
            final(self).identity == old(self).identity,
            final(self).cache_identity == old(self).cache_identity,
            final(self).units.tables == old(self).units.tables,
            final(self).units.borrowers == old(self).units.borrowers,
            final(self).units.retired_tables == old(self).units.retired_tables,
            final(self).units.dependencies == old(self).units.dependencies,
            final(self).units.shutdown_finished == old(self).units.shutdown_finished,
            *final(self) == (Lifetime {
                core: final(self).core,
                slots: final(self).slots,
                keys: final(self).keys,
                reachabilities: final(self).reachabilities,
                cache: final(self).cache,
                units: Units {
                    records: final(self).units.records,
                    families: final(self).units.families,
                    ..old(self).units
                },
                ..*old(self)
            }),
            match r {
                Ok(unlinked) => {
                    let record = old(self).units.records@[unit];
                    let kept = record.retirement->0.reason == Reason::TierCutover && (old(
                        self,
                    ).rooted(record) || record.pins != 0);
                    &&& old(self).core.closed_fault(*transition) is None
                    &&& old(self).units.records@.dom().contains(unit)
                    &&& record.retirement is Some
                    &&& unlinked == !kept
                    &&& if kept {
                        &&& final(self).units.records@ == old(self).units.records@.insert(
                            unit,
                            UnitRecord { retirement: None, ..record },
                        )
                        &&& final(self).units.families == old(self).units.families
                        &&& final(self).slots == old(self).slots
                        &&& final(self).keys == old(self).keys
                        &&& final(self).core == old(self).core
                        &&& final(self).cache == old(self).cache
                        &&& final(self).reachabilities == old(self).reachabilities
                    } else {
                        &&& final(self).reachabilities.last() == old(self).reachabilities.last()
                            + named_slots(*old(self), record, record.slots@.len() as int)
                        &&& slots_renewed(
                            *old(self),
                            *final(self),
                            record.slots@,
                            record.unit.id,
                            record.unit.version,
                            old(self).reachabilities.last(),
                        )
                        &&& record.pins == 0 || old(self).core.shutdown
                        &&& family_dissolved(*old(self), *final(self), unit)
                        &&& slots_without(
                            *old(self),
                            *final(self),
                            record.slots@,
                            record.unit.id,
                            record.unit.version,
                            old(self).core.execution,
                        )
                        &&& final(self).core.execution.id() == old(self).core.executions.last() + 1
                        &&& final(self).core.executions.last() == final(self).core.execution.id()
                        &&& final(self).core == (Coordinator {
                            execution: final(self).core.execution,
                            executions: final(self).core.executions,
                            ..old(self).core
                        })
                    }
                },
                Err(error) => {
                    let record = old(self).units.records@[unit];
                    &&& final(self).slots == old(self).slots
                    &&& final(self).keys == old(self).keys
                    &&& final(self).cache == old(self).cache
                    &&& final(self).units.records == old(self).units.records
                    &&& final(self).units.families == old(self).units.families
                    &&& final(self).core.execution == old(self).core.execution
                    &&& final(self).core.shutdown == old(self).core.shutdown
                    &&& if old(self).core.closed_fault(*transition) is Some {
                        old(self).core.closed_fault(*transition) == Some(error) && *final(self)
                            == *old(self)
                    } else if !old(self).units.records@.dom().contains(unit) || record.retirement
                        is None {
                        error == Error::StaleUnit && *final(self) == *old(self)
                    } else if !old(self).core.shutdown && record.pins != 0
                        && record.retirement->0.reason != Reason::TierCutover {
                        error == Error::PinnedBaseline && *final(self) == *old(self)
                    } else if old(self).reachabilities.last() + named_slots(
                        *old(self),
                        record,
                        record.slots@.len() as int,
                    ) > u64::MAX {
                        &&& exhausted(error, "ReachabilityVersion"@)
                        &&& final(self).core == old(self).core.failed_with(error)
                        &&& final(self).reachabilities.last() == old(self).reachabilities.last()
                    } else {
                        &&& old(self).core.executions.last() == u64::MAX
                        &&& final(self).core.executions.last() == u64::MAX
                        &&& exhausted(error, "ExecutionEpoch"@)
                        &&& final(self).core == old(self).core.failed_with(error)
                    }
                },
            },
    {
        self.core.require_closed(transition)?;
        let mut reason = Reason::Eviction;
        let mut pins: usize = 0;
        let mut snapshots: usize = 0;
        let mut lifecycle = Lifecycle::Unlinked;
        let mut family: Option<Handle> = None;
        match self.units.records.get(unit) {
            Some(record) => match record.retirement {
                Some(retirement) => {
                    reason = retirement.reason;
                    pins = record.pins;
                    snapshots = record.snapshots;
                    lifecycle = record.lifecycle;
                    family = record.family;
                },
                None => {
                    return Err(Error::StaleUnit);
                },
            },
            None => {
                return Err(Error::StaleUnit);
            },
        }
        if reason == Reason::TierCutover && (pins != 0 || self.is_rooted(unit)) {
            self.amend(unit, lifecycle, None, snapshots, pins);
            return Ok(false);
        }
        if !self.core.shutdown && pins != 0 {
            return Err(Error::PinnedBaseline);
        }
        let count: usize = self.count_named(unit);
        let identities: Vec<ReachabilityVersion> = match self.reachabilities.take_ids(count) {
            Ok(identities) => identities,
            Err(error) => {
                let error = Error::Exhausted(error);
                self.core.fail(error);
                proof {
                    lemma_units_alike(*old(self), *self);
                }
                return Err(error);
            },
        };
        let retired = self.core.execution;
        let result = self.core.next_execution();
        proof {
            lemma_units_alike(*old(self), *self);
        }
        let next = result?;
        self.core.execution = next;
        proof {
            lemma_units_alike(*old(self), *self);
        }
        self.unlink_slots(unit, &identities, retired, Ghost(*old(self)));
        let ghost cleared = *self;
        self.amend(unit, Lifecycle::Retired(retired), None, snapshots, pins);
        let ghost amended = *self;
        if let Some(family) = family {
            if let Some(dissolved) = self.units.families.take_held(family) {
                proof {
                    lemma_units_alike(amended, *self);
                }
                let Family { baselines, charge, .. } = dissolved;
                self.release_baselines(&baselines);
                self.refund(charge);
            } else {
                proof {
                    lemma_units_alike(amended, *self);
                    assert(self.units.families@ =~= old(self).units.families@);
                }
            }
        }
        proof {
            assert(slots_without(
                *old(self),
                *self,
                old(self).units.records@[unit].slots@,
                old(self).units.records@[unit].unit.id,
                old(self).units.records@[unit].unit.version,
                old(self).core.execution,
            ));
        }
        Ok(true)
    }

    /// Takes a pin from each unit that a family relied on.
    pub(crate) fn release_baselines(&mut self, baselines: &Vec<Handle>)
        requires
            old(self).wf(),
        ensures
            final(self).wf(),
            pinned(old(self).units.records@, final(self).units.records@, baselines@, false),
            *final(self) == (Lifetime {
                units: Units { records: final(self).units.records, ..old(self).units },
                ..*old(self)
            }),
    {
        let mut once: Vec<Handle> = Vec::new();
        let mut k: usize = 0;
        while k < baselines.len()
            invariant
                k <= baselines@.len(),
                once@.no_duplicates(),
                forall|h: Handle| #[trigger]
                    once@.contains(h) <==> baselines@.take(k as int).contains(h),
            decreases baselines@.len() - k,
        {
            let unit = baselines[k];
            let mut seen = false;
            let mut j: usize = 0;
            while j < once.len()
                invariant
                    j <= once@.len(),
                    seen == exists|i: int| 0 <= i < j && #[trigger] once@[i] == unit,
                decreases once@.len() - j,
            {
                if once[j] == unit {
                    seen = true;
                }
                j = j + 1;
            }
            let ghost before = once@;
            if !seen {
                once.push(unit);
            }
            proof {
                assert(seen == before.contains(unit));
                let taken = baselines@.take(k as int);
                let next = baselines@.take(k + 1);
                assert(next =~= taken.push(unit));
                assert forall|h: Handle| #[trigger] once@.contains(h) <==> next.contains(h) by {
                    assert(next.contains(h) <==> taken.contains(h) || h == unit) by {
                        if next.contains(h) && h != unit {
                            let i = choose|i: int| 0 <= i < next.len() && next[i] == h;
                            assert(taken[i] == h);
                        }
                        if taken.contains(h) {
                            let i = choose|i: int| 0 <= i < taken.len() && taken[i] == h;
                            assert(next[i] == h);
                        }
                        assert(next[k as int] == unit);
                    }
                    assert(before.contains(h) <==> taken.contains(h));
                    assert(once@.contains(h) <==> before.contains(h) || h == unit) by {
                        if !seen {
                            assert(once@ == before.push(unit));
                            if once@.contains(h) && h != unit {
                                let i = choose|i: int| 0 <= i < once@.len() && once@[i] == h;
                                assert(before[i] == h);
                            }
                            if before.contains(h) {
                                let i = choose|i: int| 0 <= i < before.len() && before[i] == h;
                                assert(once@[i] == h);
                            }
                            assert(once@[before.len() as int] == unit);
                        }
                    }
                }
            }
            k = k + 1;
        }
        proof {
            assert(baselines@.take(baselines@.len() as int) =~= baselines@);
        }
        self.pin(&once, false);
    }
}

proof fn lemma_nothing_unlinked(process: Lifetime, record: UnitRecord, retired: ExecutionEpoch)
    requires
        process.wf(),
    ensures
        slots_without(
            process,
            process,
            record.slots@.take(0),
            record.unit.id,
            record.unit.version,
            retired,
        ),
{
    assert forall|key: BlockKey| #[trigger]
        process.keys@.dom().contains(key) implies process.slots@[process.keys@[key]].retired
        is None by {}
}

/// A slot that still publishes the unit has not been rewritten.
proof fn lemma_still_named(
    start: Lifetime,
    current: Lifetime,
    record: UnitRecord,
    index: int,
    retired: ExecutionEpoch,
)
    requires
        0 <= index < record.slots@.len(),
        start.slots@.dom().contains(record.slots@[index]),
        slots_without(
            start,
            current,
            record.slots@.take(index),
            record.unit.id,
            record.unit.version,
            retired,
        ),
        names_unit(
            current.slots@[record.slots@[index]].payload,
            record.unit.id,
            record.unit.version,
        ),
    ensures
        names_unit(
            start.slots@[record.slots@[index]].payload,
            record.unit.id,
            record.unit.version,
        ),
{
}

proof fn lemma_slot_unlinked(
    start: Lifetime,
    before: Lifetime,
    after: Lifetime,
    record: UnitRecord,
    index: int,
    retired: ExecutionEpoch,
    named: bool,
)
    requires
        start.wf(),
        0 <= index < record.slots@.len(),
        start.slots@.dom().contains(record.slots@[index]),
        slots_without(
            start,
            before,
            record.slots@.take(index),
            record.unit.id,
            record.unit.version,
            retired,
        ),
        named == names_unit(
            before.slots@[record.slots@[index]].payload,
            record.unit.id,
            record.unit.version,
        ),
        !named ==> after.slots == before.slots && after.keys == before.keys,
        named ==> {
            let slot = record.slots@[index];
            &&& after.slots@.dom() == before.slots@.dom()
            &&& slot_without(
                before.slots@[slot],
                after.slots@[slot],
                record.unit.id,
                record.unit.version,
                retired,
            )
            &&& forall|other: Handle|
                other != slot && before.slots@.dom().contains(other)
                    ==> #[trigger] after.slots@[other] == before.slots@[other]
            &&& forall|key: BlockKey| #[trigger]
                after.keys@.dom().contains(key) <==> before.keys@.dom().contains(key)
                    && after.slots@[before.keys@[key]].retired is None
            &&& forall|key: BlockKey| #[trigger]
                after.keys@.dom().contains(key) ==> after.keys@[key] == before.keys@[key]
        },
    ensures
        slots_without(
            start,
            after,
            record.slots@.take(index + 1),
            record.unit.id,
            record.unit.version,
            retired,
        ),
{
    let slot = record.slots@[index];
    let taken = record.slots@.take(index);
    let next = record.slots@.take(index + 1);
    let id = record.unit.id;
    let version = record.unit.version;
    assert forall|h: Handle| #[trigger] next.contains(h) <==> taken.contains(h) || h == slot by {
        assert(next =~= taken.push(slot));
        if next.contains(h) && h != slot {
            let i = choose|i: int| 0 <= i < next.len() && next[i] == h;
            assert(taken[i] == h);
        }
        if taken.contains(h) {
            let i = choose|i: int| 0 <= i < taken.len() && taken[i] == h;
            assert(next[i] == h);
        }
        assert(next[index] == slot);
    }
    assert forall|h: Handle| #[trigger] start.slots@.dom().contains(h) implies if next.contains(h)
        && names_unit(start.slots@[h].payload, id, version) {
        slot_without(start.slots@[h], after.slots@[h], id, version, retired)
    } else {
        after.slots@[h] == start.slots@[h]
    } by {
        if h == slot {
            if named {
                assert(!(taken.contains(slot) && names_unit(
                    start.slots@[slot].payload,
                    id,
                    version,
                )));
                assert(before.slots@[slot] == start.slots@[slot]);
            }
        } else {
            assert(after.slots@[h] == before.slots@[h]);
        }
    }
    assert forall|key: BlockKey| #[trigger]
        after.keys@.dom().contains(key) <==> start.keys@.dom().contains(key)
            && after.slots@[start.keys@[key]].retired is None by {
        if start.keys@.dom().contains(key) {
            let h = start.keys@[key];
            assert(start.slots@.dom().contains(h));
            if before.keys@.dom().contains(key) {
                assert(before.keys@[key] == h);
            } else {
                assert(before.slots@[h].retired is Some);
                if named && h == slot {
                    assert(!(taken.contains(slot) && names_unit(
                        start.slots@[slot].payload,
                        id,
                        version,
                    )));
                    assert(before.slots@[slot] == start.slots@[slot]);
                } else if named {
                    assert(after.slots@[h] == before.slots@[h]);
                }
            }
        }
    }
}

proof fn lemma_slot_renewed(
    start: Lifetime,
    before: Lifetime,
    after: Lifetime,
    record: UnitRecord,
    index: int,
    retired: ExecutionEpoch,
    named: bool,
    last: u64,
)
    requires
        0 <= index < record.slots@.len(),
        before.slots@.dom() == start.slots@.dom(),
        start.slots@.dom().contains(record.slots@[index]),
        slots_without(
            start,
            before,
            record.slots@.take(index),
            record.unit.id,
            record.unit.version,
            retired,
        ),
        slots_renewed(
            start,
            before,
            record.slots@.take(index),
            record.unit.id,
            record.unit.version,
            last,
        ),
        named == names_unit(
            before.slots@[record.slots@[index]].payload,
            record.unit.id,
            record.unit.version,
        ),
        !named ==> after.slots == before.slots,
        named ==> {
            let slot = record.slots@[index];
            &&& after.slots@[slot].payload.reachability_of().id() > last
            &&& forall|other: Handle|
                other != slot && before.slots@.dom().contains(other)
                    ==> #[trigger] after.slots@[other] == before.slots@[other]
        },
    ensures
        slots_renewed(
            start,
            after,
            record.slots@.take(index + 1),
            record.unit.id,
            record.unit.version,
            last,
        ),
{
    let slot = record.slots@[index];
    let taken = record.slots@.take(index);
    let next = record.slots@.take(index + 1);
    assert forall|h: Handle| #[trigger] start.slots@.dom().contains(h) && next.contains(h)
        && names_unit(
        start.slots@[h].payload,
        record.unit.id,
        record.unit.version,
    ) implies after.slots@[h].payload.reachability_of().id() > last by {
        if h != slot {
            let i = choose|i: int| 0 <= i < next.len() && next[i] == h;
            assert(taken[i] == h);
            assert(taken.contains(h));
            if named {
                assert(after.slots@[h] == before.slots@[h]);
            }
        } else if !named {
            assert(taken.contains(slot)) by {
                if !taken.contains(slot) {
                    assert(before.slots@[slot] == start.slots@[slot]);
                }
            }
        }
    }
}

/// Unlinking optimized code puts its slot back to the low tier, whose code is
/// published as before.
pub proof fn law_unlinking_restores_the_baseline(
    before: DispatchSlot,
    after: DispatchSlot,
    id: CodeUnitId,
    version: CodeVersion,
    retired: ExecutionEpoch,
)
    requires
        slot_without(before, after, id, version, retired),
        names(hcq_entry(before.payload), id, version),
        before.payload.lcq_of() is Some,
        !names(before.payload.lcq_of(), id, version),
    ensures
        after.payload.preferred_of() == before.payload.lcq_of(),
        after.retired == before.retired,
{
}

/// Once a unit is unlinked no slot of it publishes it.
pub proof fn law_unlinked_units_are_unreachable(
    before: Lifetime,
    after: Lifetime,
    slots: Seq<Handle>,
    id: CodeUnitId,
    version: CodeVersion,
    retired: ExecutionEpoch,
    slot: Handle,
)
    requires
        slots_without(before, after, slots, id, version, retired),
        slots.contains(slot),
        before.slots@.dom().contains(slot),
    ensures
        !names_unit(after.slots@[slot].payload, id, version),
{
}

} // verus!
