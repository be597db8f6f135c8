//! The work of a stop: pressure relief and shutdown; and the fault lookup.

use vstd::prelude::*;
use super::collect::{
    handed_back, lemma_handed_back_later, lemma_removal_bounded, on_its_way, ReclaimedUnit,
};
use super::coordinator::{exhausted, Coordinator, Error, Phase, Reason, Ticket, Transition};
use super::directory::{covers, Interval};
use super::cleared::{
    payload_cleared, pins_released, retired_now, slot_cleared, slots_cleared,
    slots_relieved, touched,
};
use super::drain::{
    blocked, drained, ended, families_ended, left_since, lemma_awaiting_finite,
    lemma_drained_later, lemma_marked_before, others_stay, removal_frame, removes, retired_after,
    same_standing, same_units, uses_shrink,
};
use super::ending::{give_back_units, lemma_nothing_charged};
use super::keys::KeyIndex;
use super::prepare::{pinned, PreparedFamily, PreparedUnit};
use super::process::{
    count_down, decrement, refunded, DispatchSlot, Lifecycle, Lifetime, Retirement, UnitRecord,
    Units,
};
use super::reclaim::UnitHandle;
use super::registry::Handle;
use super::unit::Input;
use super::units::{lemma_refunds_add, lemma_units_alike};
use crate::abi::identity::ExecutionEpoch;
use crate::abi::keys::BlockKey;
use crate::executable::cache::{
    lemma_bytes_nonnegative, segment_extent, segment_size, Allocation, Cache, DecommitStep,
};
use crate::executable::usage::limit_fault;
use crate::executable::{Tier, SEGMENTS, SEGMENT_BYTES, SOFT_BYTES, WINDOW_BYTES};

verus! {

pub open spec fn invalid_unit(error: Error, text: Seq<char>) -> bool {
    error matches Error::InvalidUnit(detail) && detail@ == text
}

/// The unit is registered for eviction.
pub open spec fn evicting(before: Lifetime, after: Lifetime, unit: Handle) -> bool {
    &&& after == (Lifetime {
        core: after.core,
        units: Units { records: after.units.records, ..before.units },
        ..before
    })
    &&& exists|ticket: Ticket| #[trigger]
        before.core.requested(after.core, ticket) && ticket.reason == Reason::Eviction
            && after.units.records@ == before.units.records@.insert(
            unit,
            UnitRecord {
                lifecycle: Lifecycle::Invalidating,
                retirement: Some(
                    Retirement { reason: Reason::Eviction, sequence: ticket.sequence },
                ),
                ..before.units.records@[unit]
            },
        )
}

impl Lifetime {
    /// The unit and the access that a native address belongs to. The caller has
    /// announced its epoch before, and uses the answer before it leaves.
    pub fn lookup(&self, pc: usize) -> (r: Option<Interval>)
        requires
            self.wf(),
        ensures
            match r {
                Some(interval) => {
                    let segment = (pc - self.cache.base) / SEGMENT_BYTES as int;
                    &&& self.cache.base <= pc < self.cache.base + WINDOW_BYTES
                    &&& self.intervals_at(segment).contains(interval)
                    &&& covers(interval, pc)
                    &&& self.units.names_access(interval, segment)
                    &&& self.units.records@[interval.unit].unit.input.code.allocation.generation
                        == self.units.tables@[segment]->0.generation
                },
                None => {
                    ||| pc < self.cache.base
                    ||| pc >= self.cache.base + WINDOW_BYTES
                    ||| forall|k: int|
                        0 <= k < self.intervals_at(
                            (pc - self.cache.base) / SEGMENT_BYTES as int,
                        ).len() ==> {
                            let interval = #[trigger] self.intervals_at(
                                (pc - self.cache.base) / SEGMENT_BYTES as int,
                            )[k];
                            !covers(interval, pc) || self.units.records@[
                                interval.unit
                            ].unit.input.code.allocation.generation != self.units.tables@[(pc
                                - self.cache.base) / SEGMENT_BYTES as int]->0.generation
                        }
                },
            },
    {
        let base: usize = self.cache.base;
        if pc < base {
            return None;
        }
        let offset: usize = pc - base;
        if offset >= WINDOW_BYTES {
            return None;
        }
        let segment: usize = offset / SEGMENT_BYTES;
        proof {
            assert(self.units.attributes(segment as int));
        }
        match &self.units.tables[segment] {
            Some(table) => {
                let interval = table.find(pc)?;
                proof {
                    let k = choose|k: int|
                        0 <= k < table.intervals@.len() && table.intervals@[k] == interval;
                    assert(self.units.names_access(table.intervals@[k], segment as int));
                }
                match self.units.records.get(interval.unit) {
                    Some(record) => {
                        if record.unit.input.code.allocation.generation == table.generation {
                            Some(interval)
                        } else {
                            proof {
                                assert forall|k: int|
                                    0 <= k < self.intervals_at(
                                        segment as int,
                                    ).len() implies ({
                                    let other = #[trigger] self.intervals_at(segment as int)[k];
                                    !covers(other, pc) || self.units.records@[
                                        other.unit
                                    ].unit.input.code.allocation.generation
                                        != self.units.tables@[segment as int]->0.generation
                                }) by {
                                    let other = table.intervals@[k];
                                    if covers(other, pc) {
                                        assert(table.intervals@.contains(other));
                                        super::directory::law_attribution_is_unique(
                                            *table,
                                            interval,
                                            other,
                                            pc,
                                        );
                                    }
                                }
                            }
                            None
                        }
                    },
                    None => None,
                }
            },
            None => None,
        }
    }

    /// Gives up a unit that was prepared: its promises end, and its code comes
    /// back.
    pub fn abandon_unit(&mut self, prepared: PreparedUnit) -> (r: Input)
        requires
            old(self).wf(),
            prepared.unit.input.code.allocation.segment < SEGMENTS,
        ensures
            final(self).wf(),
            r == prepared.unit.input,
            match prepared.family {
                Some(family) => pinned(
                    old(self).units.records@,
                    final(self).units.records@,
                    family.baselines@,
                    false,
                ),
                None => final(self).units.records == old(self).units.records,
            },
            final(self).units.borrowers@ == if prepared.previous is Some && prepared.previous == old(
                self,
            ).installed_at(prepared.segment()) {
                old(self).units.borrowers@.update(
                    prepared.segment(),
                    count_down(old(self).units.borrowers@[prepared.segment()]),
                )
            } else {
                old(self).units.borrowers@
            },
            *final(self) == (Lifetime {
                units: Units {
                    records: final(self).units.records,
                    borrowers: final(self).units.borrowers,
                    ..old(self).units
                },
                cache: final(self).cache,
                ..*old(self)
            }),
            final(self).cache == refunded(old(self).cache, prepared.total_charge()),
    {
        let PreparedUnit {
            publications: _,
            unit,
            family,
            previous,
            payloads: _,
            charge,
            table_charge,
            held,
        } = prepared;
        let segment: usize = unit.input.code.allocation.segment;
        let same: bool = match (&self.units.tables[segment], previous) {
            (Some(table), Some(installed)) => table.installed == installed,
            _ => false,
        };
        if same {
            let left: usize = decrement(self.units.borrowers[segment]);
            self.units.borrowers.set(segment, left);
            proof {
                lemma_units_alike(*old(self), *self);
            }
        }
        let ghost mut returned: int = 0;
        proof {
            lemma_bytes_nonnegative(old(self).cache.segments@, 0, SEGMENTS as int);
            assert(refunded(old(self).cache, 0) == old(self).cache);
        }
        if let Some(family) = family {
            let PreparedFamily { baselines, charge: family_charge, .. } = family;
            self.release_baselines(&baselines);
            proof {
                lemma_refunds_add(old(self).cache, returned, family_charge.bytes as int);
                returned = returned + family_charge.bytes;
            }
            self.refund(family_charge);
        }
        proof {
            lemma_refunds_add(old(self).cache, returned, table_charge.bytes as int);
            returned = returned + table_charge.bytes;
            lemma_refunds_add(old(self).cache, returned, charge.bytes as int);
            returned = returned + charge.bytes;
            lemma_refunds_add(old(self).cache, returned, held.bytes as int);
        }
        self.refund(table_charge);
        self.refund(charge);
        self.refund(held);
        unit.input
    }

    /// The cache without the span of an allocation: its bytes are free, and nothing
    /// else changed.
    pub open spec fn span_returned(before: Cache, after: Cache, allocation: Allocation) -> bool {
        let segment = allocation.segment as int;
        &&& after.segments@[segment].live_spans() == before.segments@[segment].live_spans().remove(
            allocation.span.start as int,
        )
        &&& after.segments@[segment].live == before.segments@[segment].live - 1
        &&& after.segments@[segment].generation == before.segments@[segment].generation
        &&& forall|other: int|
            0 <= other < SEGMENTS && other != segment ==> #[trigger] after.segments@[other]
                == before.segments@[other]
        &&& after.open == before.open
        &&& !after.failed
    }

    /// Returns the span and the charges of code that was never published.
    pub fn discard(&mut self, input: Input)
        requires
            old(self).wf(),
            !old(self).cache.failed ==> old(self).cache.holds(input.code.allocation),
        ensures
            final(self).wf(),
            *final(self) == (Lifetime { cache: final(self).cache, ..*old(self) }),
            if old(self).cache.failed {
                final(self).cache == old(self).cache
            } else {
                &&& Lifetime::span_returned(
                    old(self).cache,
                    final(self).cache,
                    input.code.allocation,
                )
                &&& final(self).cache.usage == refunded(
                    old(self).cache,
                    input.code.charge.bytes as int,
                ).usage
                &&& final(self).cache.leased == refunded(
                    old(self).cache,
                    input.code.charge.bytes as int,
                ).leased
            },
    {
        self.cache.release(input.code.allocation);
        self.refund(input.code.charge);
    }

    /// Returns the span and the charges of a unit that no reader can reach.
    pub fn free_unit(&mut self, reclaimed: ReclaimedUnit)
        requires
            old(self).wf(),
            !old(self).cache.failed ==> old(self).cache.holds(
                reclaimed.unit.input.code.allocation,
            ),
        ensures
            final(self).wf(),
            *final(self) == (Lifetime { cache: final(self).cache, ..*old(self) }),
            if old(self).cache.failed {
                final(self).cache == old(self).cache
            } else {
                &&& Lifetime::span_returned(
                    old(self).cache,
                    final(self).cache,
                    reclaimed.unit.input.code.allocation,
                )
                &&& final(self).cache.usage == refunded(
                    old(self).cache,
                    reclaimed.total_charge(),
                ).usage
            },
    {
        let ghost own = reclaimed.unit.input.code.charge.bytes as int;
        let ghost kept = reclaimed.charge.bytes as int;
        let ghost start = old(self).cache;
        self.discard(reclaimed.unit.input);
        self.refund(reclaimed.charge);
        proof {
            lemma_refunds_add(start, own, kept);
            if reclaimed.table_charge is Some {
                lemma_refunds_add(start, own + kept, reclaimed.table_charge->0.bytes as int);
            }
            lemma_bytes_nonnegative(start.segments@, 0, SEGMENTS as int);
        }
        self.refund_option(reclaimed.table_charge);
    }

    /// Closes admission once every reader has left.
    pub fn wait_closed(&mut self, transition: &Transition) -> (r: Result<bool, Error>)
        requires
            old(self).wf(),
            old(self).core.owned_by(*transition),
        ensures
            final(self).wf(),
            *final(self) == (Lifetime { core: final(self).core, ..*old(self) }),
            match r {
                Ok(closed) => {
                    &&& transition.active && old(self).core.failure is None
                    &&& closed == old(self).idle_now()
                    &&& final(self).core == if closed {
                        Coordinator { phase: Phase::Closed, ..old(self).core }
                    } else {
                        old(self).core
                    }
                },
                Err(error) => {
                    &&& *final(self) == *old(self)
                    &&& if !transition.active {
                        error == Error::Closed
                    } else {
                        old(self).core.failure == Some(error)
                    }
                },
            },
    {
        let idle = self.idle();
        self.core.try_close(transition, idle)
    }

    /// Some unit of the segment satisfies the test.
    pub open spec fn has_unit_in(&self, segment: int, retired: bool) -> bool {
        exists|unit: Handle| #[trigger]
            self.units.records@.dom().contains(unit)
                && self.units.records@[unit].unit.input.code.allocation.segment == segment
                && self.units.records@[unit].lifecycle is Retired == retired
    }

    fn unit_in(&self, segment: usize, retired: bool) -> (r: bool)
        ensures
            r == self.has_unit_in(segment as int, retired),
    {
        let handles = self.units.records.handles();
        let mut k: usize = 0;
        while k < handles.len()
            invariant
                k <= handles@.len(),
                forall|j: int|
                    0 <= j < handles@.len() ==> self.units.records@.dom().contains(
                        #[trigger] handles@[j],
                    ),
                forall|h: Handle| #[trigger]
                    self.units.records@.dom().contains(h) ==> handles@.contains(h),
                forall|j: int|
                    0 <= j < k ==> !(self.units.records@[
                        #[trigger] handles@[j]
                    ].unit.input.code.allocation.segment == segment && self.units.records@[
                        handles@[j]
                    ].lifecycle is Retired == retired),
            decreases handles@.len() - k,
        {
            assert(self.units.records@.dom().contains(handles@[k as int]));
            if let Some(record) = self.units.records.get(handles[k]) {
                if record.unit.input.code.allocation.segment == segment && matches!(
                    record.lifecycle,
                    Lifecycle::Retired(_)
                ) == retired {
                    return true;
                }
            }
            k = k + 1;
        }
        false
    }

    /// Nothing lies in the segment: its backing may go.
    pub open spec fn vacant(&self, segment: int) -> bool {
        &&& self.units.tables@[segment] is None
        &&& !self.has_unit_in(segment, true)
        &&& !self.has_unit_in(segment, false)
    }

    /// Starts to release the backing of a segment in which nothing lies. Until it
    /// is finished no unit is published there. Nothing means that something does.
    pub fn begin_decommit(&mut self, segment: usize) -> (r: Result<Option<DecommitStep>, Error>)
        requires
            old(self).wf(),
            segment < SEGMENTS,
        ensures
            final(self).wf(),
            *final(self) == (Lifetime {
                core: final(self).core,
                units: Units { decommitting: final(self).units.decommitting, ..old(self).units },
                cache: final(self).cache,
                ..*old(self)
            }),
            match r {
                Ok(None) => !old(self).vacant(segment as int) && *final(self) == *old(self),
                Ok(Some(step)) => {
                    &&& old(self).vacant(segment as int)
                    &&& final(self).core == old(self).core
                    &&& final(self).units.decommitting@ == old(self).units.decommitting@.update(
                        segment as int,
                        step == DecommitStep::Release,
                    )
                    &&& !old(self).cache.failed
                    &&& step == if old(self).cache.segments@[segment as int].live != 0 {
                        DecommitStep::Busy
                    } else if old(self).cache.segments@[segment as int].generation is Some {
                        DecommitStep::Release
                    } else {
                        DecommitStep::Done
                    }
                    &&& if step == DecommitStep::Done {
                        old(self).cache.segment_reset(final(self).cache, segment as int, 0)
                    } else {
                        final(self).cache == old(self).cache
                    }
                },
                Err(error) => {
                    &&& old(self).vacant(segment as int) && old(self).cache.failed
                    &&& error == Error::CacheFailed
                    &&& final(self).cache == old(self).cache
                    &&& final(self).units.decommitting == old(self).units.decommitting
                    &&& final(self).core == old(self).core.failed_with(error)
                },
            },
    {
        if self.units.tables[segment].is_some() || self.unit_in(segment, true) || self.unit_in(
            segment,
            false,
        ) {
            return Ok(None);
        }
        match self.cache.decommit_empty(segment) {
            Ok(step) => {
                self.units.decommitting.set(segment, step == DecommitStep::Release);
                proof {
                    lemma_units_alike(*old(self), *self);
                }
                Ok(Some(step))
            },
            Err(error) => {
                let error = Error::from_cache(error);
                self.core.fail(error);
                proof {
                    lemma_units_alike(*old(self), *self);
                }
                Err(error)
            },
        }
    }

    /// Records how the release of a segment's backing ended. A failure disables
    /// admission.
    pub fn finish_decommit(&mut self, segment: usize, outcome: Result<(), (&'static str, i32)>) -> (r:
        Result<(), Error>)
        requires
            old(self).wf(),
            segment < SEGMENTS,
            !old(self).cache.failed,
            old(self).cache.segments@[segment as int].live == 0,
            old(self).cache.segments@[segment as int].generation is Some,
        ensures
            final(self).wf(),
            final(self).units.decommitting@ == old(self).units.decommitting@.update(
                segment as int,
                false,
            ),
            r is Ok <==> outcome is Ok,
            r is Ok ==> final(self).core == old(self).core && old(self).cache.segment_reset(
                final(self).cache,
                segment as int,
                segment_extent(segment as int),
            ),
            r is Err ==> final(self).cache == (Cache { failed: true, ..old(self).cache }),
            r matches Err(error) ==> error == Error::CacheFailed && final(self).core == old(
                self,
            ).core.failed_with(error),
            *final(self) == (Lifetime {
                core: final(self).core,
                units: Units { decommitting: final(self).units.decommitting, ..old(self).units },
                cache: final(self).cache,
                ..*old(self)
            }),
    {
        self.units.decommitting.set(segment, false);
        let result = self.cache.finish_decommit(segment, outcome);
        proof {
            lemma_units_alike(*old(self), *self);
        }
        match result {
            Ok(_) => Ok(()),
            Err(error) => {
                let error = Error::from_cache(error);
                self.core.fail(error);
                proof {
                    lemma_units_alike(*old(self), *self);
                }
                Err(error)
            },
        }
    }

    /// The unit may be evicted to make room.
    pub open spec fn evictable(&self, unit: Handle, tier: Tier) -> bool {
        let record = self.units.records@[unit];
        &&& self.units.records@.dom().contains(unit)
        &&& record.unit.input.tier == tier
        &&& record.lifecycle is Published || record.lifecycle is Superseded
        &&& record.pins == 0
    }

    /// The oldest unit of the tier that may be evicted.
    pub open spec fn oldest_evictable(&self, unit: Handle, tier: Tier) -> bool {
        &&& self.evictable(unit, tier)
        &&& forall|other: Handle| #[trigger]
            self.evictable(other, tier) ==> self.units.records@[unit].unit.id.id()
                <= self.units.records@[other].unit.id.id()
    }

    fn find_evictable(&self, tier: Tier) -> (r: Option<Handle>)
        ensures
            match r {
                Some(unit) => self.oldest_evictable(unit, tier),
                None => forall|unit: Handle| !#[trigger] self.evictable(unit, tier),
            },
    {
        let handles = self.units.records.handles();
        let mut best: Option<Handle> = None;
        let mut best_id: u64 = 0;
        let mut k: usize = 0;
        while k < handles.len()
            invariant
                k <= handles@.len(),
                forall|j: int|
                    0 <= j < handles@.len() ==> self.units.records@.dom().contains(
                        #[trigger] handles@[j],
                    ),
                forall|h: Handle| #[trigger]
                    self.units.records@.dom().contains(h) ==> handles@.contains(h),
                match best {
                    Some(unit) => {
                        &&& self.evictable(unit, tier)
                        &&& best_id == self.units.records@[unit].unit.id.id()
                        &&& forall|j: int|
                            0 <= j < k && self.evictable(#[trigger] handles@[j], tier) ==> best_id
                                <= self.units.records@[handles@[j]].unit.id.id()
                    },
                    None => forall|j: int|
                        0 <= j < k ==> !self.evictable(#[trigger] handles@[j], tier),
                },
            decreases handles@.len() - k,
        {
            assert(self.units.records@.dom().contains(handles@[k as int]));
            if let Some(record) = self.units.records.get(handles[k]) {
                if record.unit.input.tier == tier && matches!(
                    record.lifecycle,
                    Lifecycle::Published | Lifecycle::Superseded
                ) && record.pins == 0 {
                    let id: u64 = record.unit.id.get();
                    if best.is_none() || id < best_id {
                        best = Some(handles[k]);
                        best_id = id;
                    }
                }
            }
            k = k + 1;
        }
        proof {
            assert forall|unit: Handle| #[trigger] self.evictable(unit, tier) implies exists|j: int|
                0 <= j < handles@.len() && #[trigger] handles@[j] == unit by {
                assert(self.units.records@.dom().contains(unit));
                let j = choose|j: int| 0 <= j < handles@.len() && handles@[j] == unit;
                assert(handles@[j] == unit);
            }
        }
        best
    }

    /// A segment whose units are all retired: its backing will go.
    pub open spec fn releasing(&self, segment: int) -> bool {
        self.has_unit_in(segment, true) && !self.has_unit_in(segment, false)
    }

    pub open spec fn releasing_bytes(&self, count: int) -> int
        decreases count,
    {
        if count <= 0 {
            0
        } else {
            self.releasing_bytes(count - 1) + if self.releasing(count - 1) {
                segment_extent(count - 1)
            } else {
                0
            }
        }
    }

    fn count_releasing(&self) -> (r: usize)
        requires
            self.wf(),
        ensures
            r == self.releasing_bytes(SEGMENTS as int),
    {
        let mut bytes: usize = 0;
        let mut segment: usize = 0;
        while segment < SEGMENTS
            invariant
                segment <= SEGMENTS,
                self.wf(),
                bytes == self.releasing_bytes(segment as int),
                bytes <= segment * SEGMENT_BYTES,
            decreases SEGMENTS - segment,
        {
            if self.unit_in(segment, true) && !self.unit_in(segment, false) {
                bytes = bytes + segment_size(segment);
            }
            segment = segment + 1;
        }
        bytes
    }

    /// With `additional` bytes the budget stays below its soft limit.
    pub open spec fn fits_softly(&self, additional: usize) -> bool {
        self.cache.usage.sum() + additional <= SOFT_BYTES
    }

    /// The same, once the segments that are being released are gone.
    pub open spec fn will_fit(&self, additional: usize) -> bool {
        let used = self.cache.usage.sum();
        let pending = self.releasing_bytes(SEGMENTS as int);
        additional + (if used >= pending {
            used - pending
        } else {
            0
        }) <= SOFT_BYTES
    }

    /// What makes room for `additional` bytes: nothing more, or the eviction of
    /// one unit. Optimized code goes first, and the oldest of it.
    pub fn relief(&self, additional: usize, tier: Tier) -> (r: Result<Option<Handle>, Error>)
        requires
            self.wf(),
        ensures
            match r {
                Ok(Some(unit)) => {
                    &&& !self.cache.failed
                    &&& !self.fits_softly(additional) && !self.will_fit(additional)
                    &&& self.oldest_evictable(unit, Tier::Hcq) || self.oldest_evictable(
                        unit,
                        Tier::Lcq,
                    ) && forall|other: Handle| !#[trigger] self.evictable(other, Tier::Hcq)
                },
                Ok(None) => {
                    &&& !self.cache.failed
                    &&& self.fits_softly(additional) || limit_fault(
                        self.cache.usage.sum() + additional,
                        tier,
                    ) is None && (self.will_fit(additional) || forall|other: Handle|
                        !#[trigger] self.evictable(other, Tier::Hcq) && !self.evictable(
                            other,
                            Tier::Lcq,
                        ))
                },
                Err(error) => if self.cache.failed {
                    error == Error::CacheFailed
                } else {
                    &&& !self.fits_softly(additional)
                    &&& limit_fault(self.cache.usage.sum() + additional, tier) is Some
                    &&& error matches Error::Capacity(detail) && detail@ == limit_fault(
                        self.cache.usage.sum() + additional,
                        tier,
                    )->0
                    &&& self.will_fit(additional) || forall|other: Handle|
                        !#[trigger] self.evictable(other, Tier::Hcq) && !self.evictable(
                            other,
                            Tier::Lcq,
                        )
                },
            },
    {
        let usage = match self.cache.usage() {
            Ok(usage) => usage,
            Err(error) => {
                return Err(Error::from_cache(error));
            },
        };
        let total: usize = usage.total();
        if additional <= SOFT_BYTES && total <= SOFT_BYTES - additional {
            return Ok(None);
        }
        let pending: usize = self.count_releasing();
        let rest: usize = total.saturating_sub(pending);
        let mut candidate: Option<Handle> = None;
        if !(additional <= SOFT_BYTES && rest <= SOFT_BYTES - additional) {
            candidate = self.find_evictable(Tier::Hcq);
            if candidate.is_none() {
                candidate = self.find_evictable(Tier::Lcq);
            }
        }
        if candidate.is_some() {
            return Ok(candidate);
        }
        match usage.check(additional, tier) {
            Ok(_) => Ok(None),
            Err(error) => Err(Error::from_cache(error)),
        }
    }
}

impl Lifetime {
    /// The key's slot publishes nothing.
    pub open spec fn empty_key(&self, key: BlockKey) -> bool {
        self.keys@.dom().contains(key) && self.slots@[self.keys@[key]].payload.preferred_of() is None
    }

    fn find_empty(&self) -> (r: Option<(BlockKey, Handle)>)
        requires
            self.wf(),
        ensures
            match r {
                Some((key, slot)) => self.empty_key(key) && self.keys@[key] == slot,
                None => forall|key: BlockKey| !#[trigger] self.empty_key(key),
            },
    {
        let entries = self.keys.entries();
        let mut k: usize = 0;
        while k < entries.len()
            invariant
                k <= entries@.len(),
                self.wf(),
                forall|j: int|
                    0 <= j < entries@.len() ==> self.keys@.dom().contains((#[trigger] entries@[j]).0)
                        && self.keys@[entries@[j].0] == entries@[j].1,
                forall|key: BlockKey| #[trigger]
                    self.keys@.dom().contains(key) ==> exists|j: int|
                        0 <= j < entries@.len() && (#[trigger] entries@[j]).0 == key,
                forall|j: int| 0 <= j < k ==> !self.empty_key((#[trigger] entries@[j]).0),
            decreases entries@.len() - k,
        {
            let (key, slot) = entries[k];
            assert(self.keys@.dom().contains(entries@[k as int].0));
            if let Some(found) = self.slots.get(slot) {
                if found.payload.preferred().is_none() {
                    return Some((key, slot));
                }
            }
            k = k + 1;
        }
        proof {
            assert forall|key: BlockKey| !#[trigger] self.empty_key(key) by {
                if self.keys@.dom().contains(key) {
                    let j = choose|j: int| 0 <= j < entries@.len() && (#[trigger] entries@[j]).0 == key;
                    assert(!self.empty_key(entries@[j].0));
                }
            }
        }
        None
    }

    /// Retires every slot that publishes nothing, all at one epoch.
    pub fn retire_empty_dispatch(&mut self, transition: &Transition) -> (r: Result<(), Error>)
        requires
            old(self).wf(),
        ensures
            final(self).wf(),
            *final(self) == (Lifetime {
                slots: final(self).slots,
                keys: final(self).keys,
                core: final(self).core,
                ..*old(self)
            }),
            final(self).slots@.dom() == old(self).slots@.dom(),
            match r {
                Ok(_) => {
                    &&& old(self).core.closed_fault(*transition) is None
                    &&& final(self).core.closed_fault(*transition) is None
                    &&& final(self).core == old(self).core.at_epoch(final(self).core)
                    &&& final(self).core.execution.id() >= old(self).core.execution.id()
                    &&& forall|key: BlockKey| #[trigger]
                        final(self).keys@.dom().contains(key) <==> old(self).keys@.dom().contains(
                            key,
                        ) && !old(self).empty_key(key)
                    &&& forall|key: BlockKey| #[trigger]
                        final(self).keys@.dom().contains(key) ==> final(self).keys@[key] == old(
                            self,
                        ).keys@[key]
                    &&& forall|slot: Handle| #[trigger]
                        old(self).slots@.dom().contains(slot) ==> final(self).slots@[slot] == old(
                            self,
                        ).slots@[slot] || old(self).empty_key(old(self).slots@[slot].key)
                            && final(self).slots@[slot] == (DispatchSlot {
                            retired: Some(old(self).core.execution),
                            ..old(self).slots@[slot]
                        })
                    &&& forall|slot: Handle| #[trigger]
                        old(self).slots@.dom().contains(slot) && final(self).slots@[slot] != old(
                            self,
                        ).slots@[slot] ==> old(self).keys@[old(self).slots@[slot].key] == slot
                    &&& forall|key: BlockKey| #[trigger]
                        old(self).empty_key(key) ==> final(
                            self
                        ).slots@[old(self).keys@[key]].retired == Some(old(self).core.execution)
                },
                Err(error) => {
                    ||| old(self).core.closed_fault(*transition) == Some(error) && *final(self)
                        == *old(self)
                    ||| {
                        &&& exhausted(error, "ExecutionEpoch"@)
                        &&& old(self).core.closed_fault(*transition) is None
                        &&& old(self).core.executions.last() == u64::MAX
                        &&& *final(self) == (Lifetime {
                            core: old(self).core.failed_with(error),
                            ..*old(self)
                        })
                    }
                },
            },
    {
        self.core.require_closed(transition)?;
        let mut found = self.find_empty();
        if found.is_none() {
            return Ok(());
        }
        let retired = self.core.execution;
        let result = self.core.next_execution();
        proof {
            lemma_units_alike(*old(self), *self);
        }
        let next = result?;
        self.core.execution = next;
        proof {
            lemma_units_alike(*old(self), *self);
        }
        let mut rounds: usize = self.keys.len();
        while found.is_some()
            invariant
                old(self).wf(),
                self.wf(),
                old(self).core.closed_fault(*transition) is None,
                self.core.closed_fault(*transition) is None,
                self.core == old(self).core.at_epoch(self.core),
                retired == old(self).core.execution,
                retired.id() < self.core.execution.id(),
                *self == (Lifetime {
                    slots: self.slots,
                    keys: self.keys,
                    core: self.core,
                    ..*old(self)
                }),
                self.slots@.dom() == old(self).slots@.dom(),
                self.keys@.dom().finite(),
                rounds == self.keys@.dom().len(),
                match found {
                    Some((key, slot)) => self.empty_key(key) && self.keys@[key] == slot,
                    None => forall|key: BlockKey| !#[trigger] self.empty_key(key),
                },
                forall|key: BlockKey| #[trigger]
                    self.keys@.dom().contains(key) ==> old(self).keys@.dom().contains(key)
                        && self.keys@[key] == old(self).keys@[key],
                forall|key: BlockKey| #[trigger]
                    old(self).keys@.dom().contains(key) && !self.keys@.dom().contains(key) ==> old(
                        self,
                    ).empty_key(key),
                forall|key: BlockKey| #[trigger]
                    old(self).keys@.dom().contains(key) && !self.keys@.dom().contains(key)
                        ==> self.slots@[old(self).keys@[key]].retired == Some(
                        old(self).core.execution,
                    ),
                forall|h: Handle| #[trigger]
                    old(self).slots@.dom().contains(h) ==> self.slots@[h] == old(self).slots@[h]
                        || old(self).empty_key(old(self).slots@[h].key) && self.slots@[h] == (
                    DispatchSlot { retired: Some(old(self).core.execution), ..old(self).slots@[h] }),
                forall|h: Handle| #[trigger]
                    old(self).slots@.dom().contains(h) && self.slots@[h] != old(self).slots@[h]
                        ==> old(self).keys@[old(self).slots@[h].key] == h,
            decreases rounds,
        {
            let ghost before = *self;
            let (key, slot) = found.unwrap();
            self.keys.remove(key);
            self.slots.get_mut(slot).retired = Some(retired);
            proof {
                assert(before.keys@.dom().contains(key));
                assert(self.slots@.dom() =~= old(self).slots@.dom());
                assert(before.slots@[slot].key == key);
                assert(old(self).slots@.dom().contains(slot));
                assert(before.slots@[slot] == old(self).slots@[slot]);
                assert forall|other: BlockKey| #[trigger]
                    old(self).keys@.dom().contains(other) && !self.keys@.dom().contains(
                        other,
                    ) implies self.slots@[old(self).keys@[other]].retired == Some(
                    old(self).core.execution,
                ) by {
                    if other != key {
                        assert(!before.keys@.dom().contains(other));
                        assert(before.slots@[old(self).keys@[other]].retired is Some);
                        assert(old(self).slots@.dom().contains(old(self).keys@[other]));
                    }
                }
                assert forall|other: BlockKey| #[trigger] self.keys@.dom().contains(other) implies {
                    &&& self.slots@.dom().contains(self.keys@[other])
                    &&& self.slots@[self.keys@[other]].retired is None
                    &&& self.slots@[self.keys@[other]].key == other
                } by {
                    assert(before.keys@.dom().contains(other));
                }
                assert forall|h: Handle| #[trigger] self.slots@.dom().contains(
                    h,
                ) implies super::process::retired_before(
                    self.slots@[h],
                    self.core.execution.id() as int,
                ) && self.slots@[h].payload.reachability_of().id()
                    <= self.reachabilities.last() by {
                    assert(before.slots@.dom().contains(h));
                }
                assert forall|unit: Handle, i: int|
                    #![trigger self.units.records@[unit].slots@[i]]
                    self.units.records@.dom().contains(unit) && 0 <= i
                        < self.units.records@[unit].slots@.len() implies self.slots@.dom().contains(
                    self.units.records@[unit].slots@[i],
                ) by {
                    assert(before.slots@.dom().contains(before.units.records@[unit].slots@[i]));
                }
            }
            rounds = self.keys.len();
            found = self.find_empty();
        }
        proof {
            assert forall|key: BlockKey| #[trigger]
                self.keys@.dom().contains(key) <==> old(self).keys@.dom().contains(key) && !old(
                    self,
                ).empty_key(key) by {
                if self.keys@.dom().contains(key) {
                    assert(!self.empty_key(key));
                    assert(old(self).slots@.dom().contains(old(self).keys@[key]));
                    assert(self.slots@[self.keys@[key]].payload == old(
                        self,
                    ).slots@[self.keys@[key]].payload);
                }
            }
        }
        Ok(())
    }

    /// Begins pressure relief: requests are drained and empty slots retired.
    pub fn begin_relief(&mut self, transition: &Transition) -> (r: Result<(), Error>)
        requires
            old(self).wf(),
        ensures
            final(self).wf(),
            same_units(*old(self), *final(self)),
            match r {
                Ok(_) => {
                    &&& old(self).core.closed_fault(*transition) is None
                    &&& !old(self).core.shutdown
                    // Everything but the units that left is as it was.
                    &&& removal_frame(*old(self), *final(self))
                    &&& others_stay(*old(self), *final(self))
                    &&& slots_relieved(
                        *old(self),
                        *final(self),
                        left_since(*old(self), *final(self)),
                    )
                    &&& families_ended(
                        *old(self),
                        *final(self),
                        left_since(*old(self), *final(self)),
                    )
                    &&& pins_released(*old(self), *final(self))
                    &&& final(self).core == old(self).core.at_epoch(final(self).core)
                    &&& forall|unit: Handle| #[trigger]
                        old(self).units.records@.dom().contains(unit) ==> drained(
                            *old(self),
                            *final(self),
                            unit,
                        )
                    &&& forall|unit: Handle| #[trigger]
                        final(self).units.records@.dom().contains(unit) ==> final(
                            self
                        ).units.records@[unit].retirement is None
                    &&& forall|key: BlockKey| !#[trigger] final(self).empty_key(key)
                },
                Err(error) => {
                    ||| old(self).core.closed_fault(*transition) == Some(error) && *final(self)
                        == *old(self)
                    ||| {
                        &&& old(self).core.closed_fault(*transition) is None
                        &&& if old(self).core.shutdown {
                            error == Error::Shutdown && *final(self) == *old(self)
                        } else {
                            ||| blocked(*old(self), *final(self), error)
                            ||| {
                                &&& exhausted(error, "ExecutionEpoch"@)
                                &&& final(self).core == old(self).core.at_epoch(
                                    final(self).core,
                                ).failed_with(error)
                                &&& old(self).core.executions.last() + old(self).awaiting().len()
                                    + 1 > u64::MAX
                            }
                        }
                    }
                },
            },
    {
        self.core.require_closed(transition)?;
        if self.core.shutdown {
            return Err(Error::Shutdown);
        }
        self.drain_retirements(transition)?;
        let ghost done = *self;
        proof {
            lemma_awaiting_finite(*old(self));
            vstd::set_lib::lemma_len_subset(
                left_since(*old(self), done),
                old(self).awaiting(),
            );
        }
        self.retire_empty_dispatch(transition)?;
        proof {
            assert forall|key: BlockKey| !#[trigger] self.empty_key(key) by {
                if self.keys@.dom().contains(key) {
                    assert(done.keys@.dom().contains(key) && !done.empty_key(key));
                    assert(done.slots@.dom().contains(done.keys@[key]));
                    assert(self.slots@[self.keys@[key]].payload
                        == done.slots@[self.keys@[key]].payload);
                }
            }
            assert(uses_shrink(done, *self));
            assert forall|unit: Handle| #[trigger] old(self).units.records@.dom().contains(
                unit,
            ) implies drained(*old(self), *self, unit) by {
                lemma_drained_later(*old(self), done, *self, unit);
            }
            let left = left_since(*old(self), done);
            assert(left =~= left_since(*old(self), *self));
            lemma_relieved(*old(self), done, *self, left);
            assert(ended(*old(self), *self) =~= ended(*old(self), done));
            assert(families_ended(*old(self), *self, left));
            assert(pins_released(*old(self), *self));
        }
        Ok(())
    }

    /// Evicts a unit in a stop. What waited for its removal before leaves with it.
    pub fn evict(&mut self, transition: &Transition, unit: Handle) -> (r: Result<(), Error>)
        requires
            old(self).wf(),
        ensures
            final(self).wf(),
            r is Ok ==> {
                &&& old(self).resident(UnitHandle { unit, process: old(self).identity })
                &&& old(self).units.records@[unit].pins == 0
                &&& old(self).core.closed_fault(*transition) is None
                // The unit left, with those that waited, and the rest is as it was.
                &&& removes(
                    *old(self),
                    *final(self),
                    left_since(*old(self), *final(self)).insert(unit),
                )
                &&& forall|other: Handle| #[trigger]
                    old(self).units.records@.dom().contains(other) && other != unit ==> {
                        &&& old(self).units.records@[other].retirement is None
                            ==> final(self).units.records@[other].lifecycle == old(
                            self,
                        ).units.records@[other].lifecycle
                        &&& drained(*old(self), *final(self), other)
                    }
                &&& exists|registered: Lifetime| #[trigger]
                    evicting(*old(self), registered, unit) && final(self).core
                        == registered.core.at_epoch(final(self).core)
                &&& final(self).units.records@[unit].lifecycle is Retired
                &&& !final(self).rooted(final(self).units.records@[unit])
                &&& forall|other: Handle| #[trigger]
                    final(self).units.records@.dom().contains(other) ==> final(
                        self
                    ).units.records@[other].retirement is None
            },
            r matches Err(error) ==> {
                let handle = UnitHandle { unit, process: old(self).identity };
                if old(self).core.failure is Some {
                    error == old(self).core.failure->0 && *final(self) == *old(self)
                } else if !old(self).resident(handle) {
                    error == Error::StaleUnit && *final(self) == *old(self)
                } else if old(self).units.records@[unit].pins != 0 {
                    error == Error::PinnedBaseline && *final(self) == *old(self)
                } else if old(self).core.shutdown {
                    error == Error::Shutdown && *final(self) == *old(self)
                } else if old(self).core.request_exhausts() is Some {
                    &&& exhausted(error, old(self).core.request_exhausts()->0)
                    &&& *final(self) == (Lifetime {
                        core: Coordinator {
                            sequences: final(self).core.sequences,
                            ..old(self).core.failed_with(error)
                        },
                        units: Units { records: final(self).units.records, ..old(self).units },
                        ..*old(self)
                    })
                    &&& final(self).units.records == old(self).units.records
                } else if !transition.active || old(self).core.phase != Phase::Closed {
                    // The unit stays registered.
                    &&& error == Error::Closed
                    &&& evicting(*old(self), *final(self), unit)
                } else {
                    exists|registered: Lifetime| #[trigger]
                        evicting(*old(self), registered, unit) && blocked(
                            registered,
                            *final(self),
                            error,
                        ) && removes(registered, *final(self), left_since(registered, *final(self)))
                }
            },
    {
        let process: u64 = self.identity;
        self.retire_unit(UnitHandle { unit, process })?;
        let ghost retired = *self;
        assert(evicting(*old(self), retired, unit));
        self.drain_retirements(transition)?;
        proof {
            assert(retired.units.records@.dom() =~= old(self).units.records@.dom());
            assert(retired.units.records@.dom().contains(unit));
            assert(drained(retired, *self, unit));
            let left = left_since(retired, *self);
            assert(retired.core.execution == old(self).core.execution);
            assert(left =~= left_since(*old(self), *self).insert(unit)) by {
                assert(retired_after(self.units.records@[unit], retired.core.execution));
            }
            assert forall|other: Handle| #[trigger] old(self).units.records@.dom().contains(
                other,
            ) implies same_standing(
                retired.units.records@[other],
                old(self).units.records@[other],
            ) && retired.units.records@[other].pins == old(self).units.records@[other].pins by {}
            lemma_marked_before(*old(self), retired, *self, left);
            assert forall|other: Handle| #[trigger] old(self).units.records@.dom().contains(other)
                && other != unit implies drained(*old(self), *self, other) by {
                assert(retired.units.records@.dom().contains(other));
                assert(drained(retired, *self, other));
                assert(retired.rooted(retired.units.records@[other]) == old(self).rooted(
                    old(self).units.records@[other],
                ));
            }
            assert(retired.core.phase == old(self).core.phase || old(self).core.phase is Open);
        }
        Ok(())
    }

    /// One round of shutdown: every unit is unlinked, and the code that no reader
    /// can reach is handed back. Nothing means that the shutdown is finished.
    pub fn begin_shutdown(&mut self, transition: &Transition) -> (r: Result<
        Option<Vec<ReclaimedUnit>>,
        Error,
    >)
        requires
            old(self).wf(),
        ensures
            final(self).wf(),
            match r {
                Ok(None) => {
                    &&& old(self).core.closed_fault(*transition) is None
                    &&& old(self).core.shutdown && old(self).units.shutdown_finished
                    &&& *final(self) == *old(self)
                },
                Ok(Some(reclaimed)) => {
                    &&& old(self).core.closed_fault(*transition) is None
                    &&& old(self).core.shutdown && !old(self).units.shutdown_finished
                    &&& handed_back(*old(self), *final(self), reclaimed@)
                    &&& final(self).readers == old(self).readers
                    &&& final(self).identity == old(self).identity
                    &&& final(self).core == old(self).core.at_epoch(final(self).core)
                    // The units that waited left their slots, and no other key is gone.
                    &&& exists|done: Lifetime| #[trigger]
                        removes(*old(self), done, left_since(*old(self), done))
                            && final(self).keys == done.keys && done.slots_collected(*final(self))
                    &&& forall|unit: Handle| #[trigger]
                        final(self).units.records@.dom().contains(unit) && old(
                            self,
                        ).units.records@[unit].retirement is Some && old(
                            self,
                        ).units.records@[unit].retirement->0.reason != Reason::TierCutover
                            ==> final(self).units.records@[unit].lifecycle is Retired
                    &&& forall|unit: Handle| #[trigger]
                        final(self).units.records@.dom().contains(unit) ==> final(
                            self
                        ).units.records@[unit].retirement is None
                    &&& old(self).still() ==> forall|unit: Handle| #[trigger]
                        final(self).units.records@.dom().contains(unit) ==> !(final(
                            self
                        ).units.records@[unit].lifecycle is Retired && final(self).unreferenced(
                            unit,
                        ))
                },
                Err(error) => {
                    ||| old(self).core.closed_fault(*transition) == Some(error) && *final(self)
                        == *old(self)
                    ||| {
                        &&& old(self).core.closed_fault(*transition) is None
                        &&& if !old(self).core.shutdown {
                            invalid_unit(error, "shutdown was not requested"@) && *final(self)
                                == *old(self)
                        } else {
                            &&& !old(self).units.shutdown_finished
                            &&& {
                                ||| blocked(*old(self), *final(self), error)
                                ||| {
                                    &&& old(self).cache_stops(error)
                                    &&& exists|unit: Handle| #[trigger]
                                        final(self).detachable(unit) && final(self).needs_table(
                                            unit,
                                        )
                                }
                                ||| {
                                    &&& exhausted(error, "ExecutionEpoch"@)
                                    &&& final(self).core == old(self).core.at_epoch(
                                        final(self).core,
                                    ).failed_with(error)
                                    &&& old(self).core.executions.last() + old(
                                        self,
                                    ).awaiting().len() + 2 * old(self).units.records@.dom().len()
                                        > u64::MAX
                                }
                            }
                        }
                    }
                },
            },
    {
        self.core.require_closed(transition)?;
        if !self.core.shutdown {
            return Err(Error::InvalidUnit("shutdown was not requested"));
        }
        if self.units.shutdown_finished {
            return Ok(None);
        }
        self.drain_retirements(transition)?;
        let ghost done = *self;
        proof {
            lemma_awaiting_finite(*old(self));
            vstd::set_lib::lemma_len_subset(
                left_since(*old(self), done),
                old(self).awaiting(),
            );
            lemma_removal_bounded(done);
        }
        let reclaimed = self.reclaim_units()?;
        proof {
            lemma_handed_back_later(*old(self), done, *self, reclaimed@);
            assert forall|unit: Handle| #[trigger] self.units.records@.dom().contains(unit) && old(
                self,
            ).units.records@[unit].retirement is Some && old(
                self,
            ).units.records@[unit].retirement->0.reason
                != Reason::TierCutover implies self.units.records@[unit].lifecycle is Retired by {
                assert(done.units.records@.dom().contains(unit));
                assert(old(self).units.records@.dom().contains(unit));
                assert(drained(*old(self), done, unit));
                assert(on_its_way(done, *self, unit));
            }
            assert forall|unit: Handle| #[trigger] self.units.records@.dom().contains(
                unit,
            ) implies self.units.records@[unit].retirement is None by {
                assert(done.units.records@.dom().contains(unit));
            }
            if old(self).still() {
                assert(done.still());
            }
        }
        Ok(Some(reclaimed))
    }

    /// Ends a shutdown once no unit is left and the cache is empty. Admission is
    /// over, so that old handles can be forgotten.
    pub fn finish_shutdown(&mut self, transition: &Transition) -> (r: Result<bool, Error>)
        requires
            old(self).wf(),
        ensures
            final(self).wf(),
            final(self).core == old(self).core,
            final(self).identity == old(self).identity,
            match r {
                Ok(true) => {
                    &&& old(self).core.closed_fault(*transition) is None
                    &&& old(self).core.shutdown
                    &&& final(self).units.shutdown_finished
                    &&& !old(self).units.shutdown_finished ==> {
                        &&& old(self).units.records@.dom() == Set::<Handle>::empty()
                        &&& old(self).units.families@.dom() == Set::<Handle>::empty()
                        &&& !final(self).cache.open
                        &&& final(self).cache.usage.committed == 0
                        // All that the lists were charged is returned.
                        &&& final(self).cache.leased == old(self).cache.leased - old(
                            self,
                        ).cache.returnable(old(self).lists_load())
                        &&& final(self).cache.usage.metadata == old(self).cache.fixed@
                            + final(self).cache.leased
                        &&& final(self).lists_load() == 0
                        &&& final(self).storage == old(self).storage
                        &&& final(self).units.records@.dom() == Set::<Handle>::empty()
                        &&& final(self).units.families@.dom() == Set::<Handle>::empty()
                        &&& final(self).keys@.dom() == Set::<BlockKey>::empty()
                        &&& final(self).slots@.dom() == Set::<Handle>::empty()
                        &&& final(self).readers@.dom() == Set::<Handle>::empty()
                    }
                },
                Ok(false) => {
                    &&& old(self).core.closed_fault(*transition) is None
                    &&& old(self).core.shutdown && !old(self).units.shutdown_finished
                    &&& *final(self) == *old(self)
                    &&& {
                        ||| old(self).units.records@.dom() != Set::<Handle>::empty()
                        ||| old(self).units.records.held() != Set::<Handle>::empty()
                        ||| old(self).units.families@.dom() != Set::<Handle>::empty()
                        ||| old(self).units.families.held() != Set::<Handle>::empty()
                        ||| exists|segment: int|
                            0 <= segment < SEGMENTS && (
                            #[trigger] old(self).cache.segments@[segment]).live != 0
                    }
                },
                Err(error) => {
                    &&& *final(self) == *old(self)
                    &&& {
                        ||| old(self).core.closed_fault(*transition) == Some(error)
                        ||| !old(self).core.shutdown && invalid_unit(error, "shutdown was not requested"@)
                        ||| old(self).cache.failed && error == Error::CacheFailed
                    }
                },
            },
    {
        self.core.require_closed(transition)?;
        if !self.core.shutdown {
            return Err(Error::InvalidUnit("shutdown was not requested"));
        }
        if self.units.shutdown_finished {
            return Ok(true);
        }
        if !self.units.records.is_empty() || !self.units.families.is_empty() {
            return Ok(false);
        }
        match self.cache.try_close() {
            Ok(closed) => {
                if !closed {
                    return Ok(false);
                }
            },
            Err(error) => {
                return Err(Error::from_cache(error));
            },
        }
        let ghost start = self.cache;
        proof {
            lemma_bytes_nonnegative(start.segments@, 0, SEGMENTS as int);
            assert(refunded(start, 0) == start);
        }
        let ghost dispatch = old(self).lists_load() - old(self).units.lists_load();
        self.give_back_dispatch(Ghost(start), Ghost(0));
        let mut units = Units::new();
        units.shutdown_finished = true;
        core::mem::swap(&mut self.units, &mut units);
        self.keys = KeyIndex::with_capacity(0);
        give_back_units(&mut self.cache, units, Ghost(start), Ghost(dispatch));
        proof {
            lemma_nothing_charged(*self);
            assert forall|segment: int| 0 <= segment < SEGMENTS implies #[trigger] self.units.attributes(
                segment,
            ) by {
                assert(self.units.tables@[segment] is None);
            }
        }
        Ok(true)
    }
}

/// Slots without the units, after those that publish nothing were retired too.
proof fn lemma_relieved(start: Lifetime, done: Lifetime, last: Lifetime, units: Set<Handle>)
    requires
        start.wf(),
        done.wf(),
        slots_cleared(start, done, units),
        start.core.execution.id() <= done.core.execution.id(),
        last.slots@.dom() == done.slots@.dom(),
        forall|key: BlockKey| #[trigger]
            last.keys@.dom().contains(key) <==> done.keys@.dom().contains(key) && !done.empty_key(
                key,
            ),
        forall|key: BlockKey| #[trigger]
            last.keys@.dom().contains(key) ==> last.keys@[key] == done.keys@[key],
        forall|slot: Handle| #[trigger]
            done.slots@.dom().contains(slot) ==> last.slots@[slot] == done.slots@[slot]
                || done.empty_key(done.slots@[slot].key) && last.slots@[slot] == (DispatchSlot {
                retired: Some(done.core.execution),
                ..done.slots@[slot]
            }),
        forall|key: BlockKey| #[trigger]
            done.empty_key(key) ==> last.slots@[done.keys@[key]].retired == Some(
                done.core.execution,
            ),
        forall|slot: Handle| #[trigger]
            done.slots@.dom().contains(slot) && last.slots@[slot] != done.slots@[slot]
                ==> done.keys@[done.slots@[slot].key] == slot,
    ensures
        slots_relieved(start, last, units),
{
    assert forall|slot: Handle| #[trigger] start.slots@.dom().contains(slot) implies {
        let now = last.slots@[slot];
        &&& payload_cleared(start, now, units, slot)
        &&& if now.payload.preferred_of() is None && (touched(start, units, slot)
            || start.names_slot(slot)) {
            retired_now(start, now)
        } else {
            now.retired == start.slots@[slot].retired
        }
    } by {
        assert(done.slots@.dom().contains(slot));
        assert(slot_cleared(start, done.slots@[slot], units, slot));
        let key = start.slots@[slot].key;
        if start.names_slot(slot) && !touched(start, units, slot) {
            assert(done.keys@.dom().contains(key));
            assert(done.keys@[key] == slot);
            if done.slots@[slot].payload.preferred_of() is None {
                assert(done.empty_key(key));
            }
        }
        if last.slots@[slot] != done.slots@[slot] {
            assert(done.empty_key(key));
            assert(done.keys@.dom().contains(key));
            assert(start.keys@[key] == slot);
        }
    }
    assert forall|key: BlockKey| #[trigger]
        last.keys@.dom().contains(key) <==> start.keys@.dom().contains(key)
            && last.slots@[start.keys@[key]].payload.preferred_of() is Some by {
        if start.keys@.dom().contains(key) {
            let slot = start.keys@[key];
            assert(start.slots@.dom().contains(slot));
            assert(done.slots@.dom().contains(slot));
            assert(slot_cleared(start, done.slots@[slot], units, slot));
            assert(last.slots@[slot].payload == done.slots@[slot].payload);
        }
        assert(done.keys@.dom().contains(key) ==> done.keys@[key] == start.keys@[key]);
    }
    assert forall|key: BlockKey| #[trigger] last.keys@.dom().contains(key) implies last.keys@[key]
        == start.keys@[key] by {
        assert(done.keys@.dom().contains(key));
    }
}

/// A unit that a family relies on is never evicted: once it is pinned it is not for
/// eviction, in either tier.
pub proof fn law_pinned_units_are_not_evicted(
    before: Map<Handle, UnitRecord>,
    process: Lifetime,
    units: Seq<Handle>,
    unit: Handle,
    tier: Tier,
)
    requires
        pinned(before, process.units.records@, units, true),
        before.dom().contains(unit),
        units.contains(unit),
    ensures
        !process.evictable(unit, tier),
{
}

/// Releasing the pins of a family takes back what pinning did, as long as no count has
/// reached its end; a count that has stays there, and its unit stays pinned.
pub proof fn law_released_pins_cancel(
    before: Map<Handle, UnitRecord>,
    held: Map<Handle, UnitRecord>,
    after: Map<Handle, UnitRecord>,
    units: Seq<Handle>,
    unit: Handle,
)
    requires
        pinned(before, held, units, true),
        pinned(held, after, units, false),
        before.dom().contains(unit),
    ensures
        after.dom() == before.dom(),
        before[unit].pins + 1 < usize::MAX ==> after[unit] == before[unit],
        units.contains(unit) && before[unit].pins + 1 >= usize::MAX ==> after[unit].pins
            == usize::MAX,
{
    assert(held.dom().contains(unit));
}

/// What relief evicts is never code that somebody still needs to stay: only published or
/// superseded code without pins, and the oldest of its tier.
pub proof fn law_relief_takes_the_oldest(process: Lifetime, unit: Handle, other: Handle, tier: Tier)
    requires
        process.oldest_evictable(unit, tier),
    ensures
        process.units.records@[unit].pins == 0,
        process.units.records@[unit].unit.input.tier == tier,
        process.units.records@.dom().contains(other)
            && process.units.records@[other].unit.input.tier == tier
            && process.units.records@[other].pins == 0 && (process.units.records@[other].lifecycle
            is Published || process.units.records@[other].lifecycle is Superseded)
            ==> process.units.records@[unit].unit.id.id()
            <= process.units.records@[other].unit.id.id(),
{
    if process.units.records@.dom().contains(other) && process.units.records@[other].pins == 0
        && process.units.records@[other].unit.input.tier == tier && (
    process.units.records@[other].lifecycle is Published
        || process.units.records@[other].lifecycle is Superseded) {
        assert(process.evictable(other, tier));
    }
}

/// The backing of a segment may go exactly when no unit and no table is in it, and it will go
/// once all of its units, of which there are some, are retired.
pub proof fn law_segments_go_when_nothing_is_in_them(process: Lifetime, segment: int)
    ensures
        process.vacant(segment) <==> process.units.tables@[segment] is None && forall|unit: Handle|
            #[trigger]
            process.units.records@.dom().contains(unit)
                ==> process.units.records@[unit].unit.input.code.allocation.segment != segment,
        process.releasing(segment) <==> {
            &&& exists|unit: Handle| #[trigger]
                process.units.records@.dom().contains(unit)
                    && process.units.records@[unit].unit.input.code.allocation.segment == segment
            &&& forall|unit: Handle| #[trigger]
                process.units.records@.dom().contains(unit)
                    && process.units.records@[unit].unit.input.code.allocation.segment == segment
                    ==> process.units.records@[unit].lifecycle is Retired
        },
        !(process.vacant(segment) && process.releasing(segment)),
{
    let inside = |unit: Handle|
        process.units.records@.dom().contains(unit)
            && process.units.records@[unit].unit.input.code.allocation.segment == segment;
    assert forall|unit: Handle| #[trigger]
        process.units.records@.dom().contains(unit)
            && process.units.records@[unit].unit.input.code.allocation.segment
            == segment implies process.has_unit_in(
        segment,
        process.units.records@[unit].lifecycle is Retired,
    ) by {
        assert(inside(unit));
    }
    if process.has_unit_in(segment, true) {
        let unit = choose|unit: Handle| #[trigger]
            process.units.records@.dom().contains(unit)
                && process.units.records@[unit].unit.input.code.allocation.segment == segment
                && process.units.records@[unit].lifecycle is Retired == true;
        assert(process.units.records@.dom().contains(unit));
    }
    if process.has_unit_in(segment, false) {
        let unit = choose|unit: Handle| #[trigger]
            process.units.records@.dom().contains(unit)
                && process.units.records@[unit].unit.input.code.allocation.segment == segment
                && process.units.records@[unit].lifecycle is Retired == false;
        assert(process.units.records@.dom().contains(unit));
    }
}

/// What is about to be released only ever helps: what fits now will fit, less fits where more
/// does, and where no segment is being released the two tests agree.
pub proof fn law_releases_only_help(process: Lifetime, additional: usize, less: usize)
    requires
        less <= additional,
    ensures
        process.fits_softly(additional) ==> process.will_fit(additional),
        process.will_fit(additional) ==> process.will_fit(less),
        process.fits_softly(additional) ==> process.fits_softly(less),
        (forall|segment: int| 0 <= segment < SEGMENTS ==> !#[trigger] process.releasing(segment))
            ==> process.will_fit(additional) == process.fits_softly(additional),
        process.fits_softly(additional) <==> process.cache.usage.committed
            + process.cache.usage.metadata + additional <= SOFT_BYTES,
{
    lemma_released(process, SEGMENTS as int);
}

proof fn lemma_released(process: Lifetime, count: int)
    requires
        count <= SEGMENTS,
    ensures
        0 <= process.releasing_bytes(count),
        (forall|segment: int| 0 <= segment < count ==> !#[trigger] process.releasing(segment))
            ==> process.releasing_bytes(count) == 0,
    decreases count,
{
    if count > 0 {
        lemma_released(process, count - 1);
    }
}

/// An evicted unit is told to leave because of its eviction, and no other unit is touched.
pub proof fn law_eviction_touches_one_unit(
    before: Lifetime,
    after: Lifetime,
    unit: Handle,
    other: Handle,
)
    requires
        evicting(before, after, unit),
    ensures
        after.units.records@[unit].lifecycle == Lifecycle::Invalidating,
        after.units.records@[unit].retirement is Some,
        after.units.records@[unit].retirement->0.reason == Reason::Eviction,
        after.units.records@[unit].unit == before.units.records@[unit].unit,
        after.units.records@[unit].pins == before.units.records@[unit].pins,
        other != unit && before.units.records@.dom().contains(other)
            ==> after.units.records@[other] == before.units.records@[other],
        after.slots == before.slots,
        after.cache == before.cache,
{
}

} // verus!
