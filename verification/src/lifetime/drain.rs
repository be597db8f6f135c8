//! Removal requests: units leave their slots, and replaced code retires.

use vstd::prelude::*;
use super::coordinator::{exhausted, Error, Reason, Transition};
use super::cleared::{
    lemma_cleared_step, lemma_cleared_twice, lemma_nothing_cleared, lemma_pins_step,
    lemma_pins_twice, pins_released, slots_cleared,
};
use super::process::{refunded, Lifecycle, Lifetime, UnitRecord, Units};
use super::reclaim::{family_dissolved, named_slots, names_unit, slots_without};
use super::registry::Handle;
use super::sums::{
    lemma_total_alike, lemma_total_insert, lemma_total_union, lemma_total_within, total,
};
use super::units::{
    lemma_refunded_nothing, lemma_refunded_step, lemma_refunds_add, lemma_units_alike,
    only_refunded, same_unit,
};
use crate::abi::identity::{CodeUnitId, CodeVersion, ExecutionEpoch, Identity};
use crate::executable::Tier;

verus! {

/// The unit is the same, was detached or not as before, and keeps its family and its
/// snapshots.
pub open spec fn same_standing(a: UnitRecord, b: UnitRecord) -> bool {
    &&& same_unit(a, b)
    &&& a.detached == b.detached
    &&& a.detached_table == b.detached_table
    &&& a.snapshots == b.snapshots
    &&& a.family == b.family
}

/// The same units, each with its slots.
pub open spec fn same_units(before: Lifetime, after: Lifetime) -> bool {
    &&& after.units.records@.dom() == before.units.records@.dom()
    &&& forall|unit: Handle| #[trigger]
        before.units.records@.dom().contains(unit) ==> same_standing(
            after.units.records@[unit],
            before.units.records@[unit],
        )
}

/// Only units that were registered for removal change their lifecycle.
pub open spec fn others_stay(before: Lifetime, after: Lifetime) -> bool {
    forall|unit: Handle| #[trigger]
        before.units.records@.dom().contains(unit) && before.units.records@[unit].retirement is None
            ==> after.units.records@[unit].lifecycle == before.units.records@[unit].lifecycle
            && after.units.records@[unit].retirement is None
}

/// A removal changes the slots, the keys, the records and the families, and what they
/// are charged and numbered by. All else stays.
pub open spec fn removal_frame(before: Lifetime, after: Lifetime) -> bool {
    after == (Lifetime {
        core: after.core,
        slots: after.slots,
        keys: after.keys,
        reachabilities: after.reachabilities,
        cache: after.cache,
        units: Units {
            records: after.units.records,
            families: after.units.families,
            ..before.units
        },
        ..before
    })
}

/// The units left their slots and ended their families, and the rest is as it was.
pub open spec fn removes(before: Lifetime, after: Lifetime, units: Set<Handle>) -> bool {
    &&& removal_frame(before, after)
    &&& same_units(before, after)
    &&& slots_cleared(before, after, units)
    &&& families_ended(before, after, units)
    &&& pins_released(before, after)
}

/// Nothing publishes or relies on what nothing did before.
pub open spec fn uses_shrink(before: Lifetime, after: Lifetime) -> bool {
    &&& after.slots@.dom() == before.slots@.dom()
    &&& forall|slot: Handle, id: CodeUnitId, version: CodeVersion|
        before.slots@.dom().contains(slot) && #[trigger] names_unit(
            after.slots@[slot].payload,
            id,
            version,
        ) ==> names_unit(before.slots@[slot].payload, id, version)
    &&& forall|unit: Handle| #[trigger]
        before.units.records@.dom().contains(unit) && before.units.records@[unit].pins == 0
            ==> after.units.records@[unit].pins == 0
}

/// A unit that waited for its removal has left every slot, or is replaced code that
/// was still in use.
pub open spec fn drained(before: Lifetime, after: Lifetime, unit: Handle) -> bool {
    let was = before.units.records@[unit];
    let record = after.units.records@[unit];
    was.retirement matches Some(retirement) ==> {
        &&& record.retirement is None
        &&& {
            ||| record.lifecycle is Retired && !after.rooted(record)
            ||| retirement.reason == Reason::TierCutover && record.lifecycle == was.lifecycle && (
            before.rooted(was) || was.pins != 0)
        }
    }
}

/// The units that waited for their removal and were retired since.
pub open spec fn left_since(before: Lifetime, after: Lifetime) -> Set<Handle> {
    Set::new(
        |unit: Handle|
            before.awaits_removal(unit) && retired_after(
                after.units.records@[unit],
                before.core.execution,
            ),
    )
}

/// The unit was retired at the epoch or later.
pub open spec fn retired_after(record: UnitRecord, epoch: ExecutionEpoch) -> bool {
    record.lifecycle matches Lifecycle::Retired(retired) && retired.id() >= epoch.id()
}

/// Each unit that waited is retired now, or as it was.
pub open spec fn kept_or_retired(before: Lifetime, after: Lifetime) -> bool {
    forall|unit: Handle| #[trigger]
        before.units.records@.dom().contains(unit) ==> after.units.records@[unit].lifecycle
            == before.units.records@[unit].lifecycle || retired_after(
            after.units.records@[unit],
            before.core.execution,
        )
}

/// The family belonged to one of the units.
pub open spec fn belongs_to(before: Lifetime, units: Set<Handle>, family: Handle) -> bool {
    exists|unit: Handle| #[trigger]
        units.contains(unit) && before.units.records@[unit].family == Some(family)
}

/// The families of the units have ended, and no others. What was charged for them is
/// returned.
pub open spec fn families_ended(before: Lifetime, after: Lifetime, units: Set<Handle>) -> bool {
    &&& forall|family: Handle| #[trigger]
        after.units.families@.dom().contains(family) <==> before.units.families@.dom().contains(
            family,
        ) && !belongs_to(before, units, family)
    &&& forall|family: Handle| #[trigger]
        after.units.families@.dom().contains(family) ==> after.units.families@[family]
            == before.units.families@[family]
    &&& 0 <= total(ended(before, after), before.family_charge())
    &&& after.cache == refunded(before.cache, total(ended(before, after), before.family_charge()))
}

/// The families that have ended.
pub open spec fn ended(before: Lifetime, after: Lifetime) -> Set<Handle> {
    before.units.families@.dom().difference(after.units.families@.dom())
}

/// A unit that waits for its removal stands in the way with the error: another
/// relies on it, and is not waiting itself; or the numbers that the removals need
/// run out.
pub open spec fn blocked(before: Lifetime, after: Lifetime, error: Error) -> bool {
    ||| {
        &&& error == Error::PinnedBaseline
        &&& !before.core.shutdown
        &&& after.core == before.core.at_epoch(after.core)
        &&& exists|unit: Handle| #[trigger] holds_up(before, after, unit)
    }
    ||| {
        &&& exhausted(error, "ReachabilityVersion"@)
        &&& after.core == before.core.at_epoch(after.core).failed_with(error)
        &&& before.reachabilities_short()
    }
    ||| {
        &&& exhausted(error, "ExecutionEpoch"@)
        &&& after.core == before.core.at_epoch(after.core).failed_with(error)
        &&& before.epochs_short()
    }
}

/// The unit waits for its removal, but another relies on it. Optimized code that
/// waited itself relies on nothing any more.
pub open spec fn holds_up(before: Lifetime, after: Lifetime, unit: Handle) -> bool {
    let record = after.units.records@[unit];
    &&& after.awaits_removal(unit)
    &&& record.pins != 0
    &&& record.retirement->0.reason != Reason::TierCutover
    &&& record.unit.input.tier == Tier::Hcq || optimized_drained(before, after)
}

pub open spec fn optimized_drained(before: Lifetime, after: Lifetime) -> bool {
    forall|unit: Handle| #[trigger]
        before.units.records@.dom().contains(unit) && before.units.records@[unit].unit.input.tier
            == Tier::Hcq ==> drained(before, after, unit)
}

impl Lifetime {
    /// The unit waits for its removal.
    pub open spec fn awaits_removal(&self, unit: Handle) -> bool {
        self.units.records@.dom().contains(unit) && self.units.records@[unit].retirement is Some
    }

    /// What is charged for each family.
    pub open spec fn family_charge(&self) -> spec_fn(Handle) -> int {
        |family: Handle| self.units.families@[family].charge.bytes as int
    }

    pub open spec fn awaiting(&self) -> Set<Handle> {
        Set::new(|unit: Handle| self.awaits_removal(unit))
    }

    /// How many slots publish a unit.
    pub open spec fn named_by(&self) -> spec_fn(Handle) -> int {
        |unit: Handle|
            named_slots(
                *self,
                self.units.records@[unit],
                self.units.records@[unit].slots@.len() as int,
            )
    }

    /// The numbers do not suffice to take every unit that waits out of its slots.
    pub open spec fn reachabilities_short(&self) -> bool {
        self.reachabilities.last() + total(self.awaiting(), self.named_by()) > u64::MAX
    }

    /// The epochs do not suffice to retire every unit that waits.
    pub open spec fn epochs_short(&self) -> bool {
        self.core.executions.last() + self.awaiting().len() > u64::MAX
    }

    /// One pass over the units that are registered for removal.
    fn drain_pass(&mut self, transition: &Transition, hcq_only: bool) -> (r: Result<usize, Error>)
        requires
            old(self).wf(),
        ensures
            final(self).wf(),
            final(self).readers == old(self).readers,
            only_refunded(old(self).cache, final(self).cache),
            final(self).identity == old(self).identity,
            final(self).cache_identity == old(self).cache_identity,
            final(self).units.tables == old(self).units.tables,
            final(self).units.borrowers == old(self).units.borrowers,
            final(self).units.dependencies == old(self).units.dependencies,
            final(self).units.shutdown_finished == old(self).units.shutdown_finished,
            removal_frame(*old(self), *final(self)),
            final(self).core.phase == old(self).core.phase || r is Err,
            final(self).core.failure == old(self).core.failure || r is Err,
            final(self).core.shutdown == old(self).core.shutdown,
            final(self).core.execution.id() >= old(self).core.execution.id(),
            same_units(*old(self), *final(self)),
            removes(*old(self), *final(self), left_since(*old(self), *final(self))),
            others_stay(*old(self), *final(self)),
            uses_shrink(*old(self), *final(self)),
            kept_or_retired(*old(self), *final(self)),
            match r {
                Ok(count) => {
                    &&& old(self).core.closed_fault(*transition) is None
                    &&& count == left_since(*old(self), *final(self)).len()
                    &&& final(self).core == old(self).core.at_epoch(final(self).core)
                    &&& final(self).core.executions.last() == old(self).core.executions.last()
                        + count
                    &&& old(self).reachabilities.last() <= final(self).reachabilities.last()
                    &&& final(self).reachabilities.last() <= old(self).reachabilities.last()
                        + total(left_since(*old(self), *final(self)), old(self).named_by())
                    &&& forall|unit: Handle| #[trigger]
                        old(self).units.records@.dom().contains(unit) ==> if !hcq_only || old(
                            self,
                        ).units.records@[unit].unit.input.tier == Tier::Hcq {
                            drained(*old(self), *final(self), unit)
                        } else {
                            &&& final(self).units.records@[unit].lifecycle == old(
                                self,
                            ).units.records@[unit].lifecycle
                            &&& final(self).units.records@[unit].retirement == old(
                                self,
                            ).units.records@[unit].retirement
                        }
                    &&& forall|unit: Handle| #[trigger]
                        final(self).units.records@.dom().contains(unit) && (!hcq_only || final(
                            self
                        ).units.records@[unit].unit.input.tier == Tier::Hcq) ==> final(
                            self
                        ).units.records@[unit].retirement is None
                },
                Err(error) => {
                    ||| old(self).core.closed_fault(*transition) == Some(error) && *final(self)
                        == *old(self)
                    ||| {
                        &&& old(self).core.closed_fault(*transition) is None
                        &&& {
                            ||| {
                                &&& error == Error::PinnedBaseline
                                &&& !old(self).core.shutdown
                                &&& final(self).core == old(self).core.at_epoch(final(self).core)
                                &&& exists|unit: Handle| #[trigger]
                                    stays_pinned(*final(self), unit, hcq_only)
                            }
                            ||| {
                                &&& exhausted(error, "ReachabilityVersion"@)
                                &&& final(self).core == old(self).core.at_epoch(
                                    final(self).core,
                                ).failed_with(error)
                                &&& old(self).reachabilities_short()
                            }
                            ||| {
                                &&& exhausted(error, "ExecutionEpoch"@)
                                &&& final(self).core == old(self).core.at_epoch(
                                    final(self).core,
                                ).failed_with(error)
                                &&& old(self).epochs_short()
                            }
                        }
                    }
                },
            },
    {
        let ghost mut gone: Set<Handle> = Set::empty();
        proof {
            lemma_refunded_nothing(self.cache);
            lemma_awaiting_finite(*self);
            assert(ended(*self, *self) =~= Set::<Handle>::empty());
            assert(families_ended(*self, *self, gone));
            lemma_nothing_cleared(*self);
            assert(left_since(*self, *self) =~= gone);
        }
        self.core.require_closed(transition)?;
        let handles = self.units.records.handles();
        let mut count: usize = 0;
        let mut k: usize = 0;
        while k < handles.len()
            invariant
                k <= handles@.len(),
                count <= k,
                old(self).wf(),
                self.wf(),
                old(self).core.closed_fault(*transition) is None,
                self.core.closed_fault(*transition) is None,
                self.readers == old(self).readers,
                only_refunded(old(self).cache, self.cache),
                self.identity == old(self).identity,
                self.cache_identity == old(self).cache_identity,
                self.units.tables == old(self).units.tables,
                self.units.borrowers == old(self).units.borrowers,
                self.units.dependencies == old(self).units.dependencies,
                self.units.shutdown_finished == old(self).units.shutdown_finished,
                removal_frame(*old(self), *self),
                self.core == old(self).core.at_epoch(self.core),
                self.reachabilities.last() >= old(self).reachabilities.last(),
                slots_cleared(*old(self), *self, gone),
                pins_released(*old(self), *self),
                self.core.phase == old(self).core.phase,
                self.core.failure == old(self).core.failure,
                self.core.shutdown == old(self).core.shutdown,
                self.core.execution.id() >= old(self).core.execution.id(),
                same_units(*old(self), *self),
                others_stay(*old(self), *self),
                uses_shrink(*old(self), *self),
                kept_or_retired(*old(self), *self),
                families_ended(*old(self), *self, gone),
                old(self).awaiting().finite(),
                gone.finite(),
                gone.subset_of(old(self).awaiting()),
                count == gone.len(),
                self.core.executions.last() == old(self).core.executions.last() + count,
                self.reachabilities.last() <= old(self).reachabilities.last() + total(
                    gone,
                    old(self).named_by(),
                ),
                forall|h: Handle| #[trigger]
                    old(self).awaits_removal(h) ==> (gone.contains(h) <==> retired_after(
                        self.units.records@[h],
                        old(self).core.execution,
                    )),
                forall|j: int| k <= j < handles@.len() ==> !gone.contains(#[trigger] handles@[j]),
                forall|h: Handle| #[trigger]
                    old(self).units.records@.dom().contains(h) ==> handles@.contains(h),
                forall|j: int|
                    0 <= j < handles@.len() ==> old(self).units.records@.dom().contains(
                        #[trigger] handles@[j],
                    ),
                forall|i: int, j: int|
                    0 <= i < j < handles@.len() ==> #[trigger] handles@[i] != #[trigger] handles@[j],
                forall|j: int|
                    0 <= j < k && (!hcq_only || old(self).units.records@[
                        #[trigger] handles@[j]
                    ].unit.input.tier == Tier::Hcq) ==> drained(*old(self), *self, handles@[j]),
                forall|j: int|
                    0 <= j < handles@.len() && (k <= j || hcq_only && old(self).units.records@[
                        #[trigger] handles@[j]
                    ].unit.input.tier != Tier::Hcq) ==> self.units.records@[handles@[j]].lifecycle
                        == old(self).units.records@[handles@[j]].lifecycle
                        && self.units.records@[handles@[j]].retirement == old(
                        self,
                    ).units.records@[handles@[j]].retirement,
                forall|j: int|
                    0 <= j < k && (!hcq_only || self.units.records@[
                        #[trigger] handles@[j]
                    ].unit.input.tier == Tier::Hcq) ==> self.units.records@[
                        handles@[j]
                    ].retirement is None,
            decreases handles@.len() - k,
        {
            let unit = handles[k];
            let ghost earlier = gone;
            let ghost before = *self;
            assert(old(self).units.records@.dom().contains(handles@[k as int]));
            assert(self.units.records@.dom().contains(unit));
            let pending = match self.units.records.get(unit) {
                Some(record) => record.retirement.is_some() && (!hcq_only
                    || record.unit.input.tier == Tier::Hcq),
                None => false,
            };
            if pending {
                let result = self.unlink(transition, unit);
                proof {
                    if result is Ok {
                        lemma_unlinked_units(before, *self, unit, result->Ok_0);
                    } else {
                        assert(same_units(before, *self));
                        lemma_kept_cleared(*old(self), before, *self, gone);
                        assert(ended(*old(self), *self) =~= ended(*old(self), before));
                        assert(families_ended(*old(self), *self, gone));
                        assert(pins_released(*old(self), *self));
                        assert(gone =~= left_since(*old(self), *self));
                        assert(self.awaits_removal(unit));
                        assert(stays_pinned(*self, unit, hcq_only) || self.units.records@[unit].pins
                            == 0 || self.units.records@[unit].retirement->0.reason
                            == Reason::TierCutover);
                    }
                    assert(old(self).awaits_removal(unit));
                    assert(!gone.contains(unit)) by {
                        assert(!gone.contains(handles@[k as int]));
                    }
                    lemma_next_unit(*old(self), before, gone, unit);
                    lemma_named_nonnegative(
                        before,
                        before.units.records@[unit],
                        before.units.records@[unit].slots@.len() as int,
                    );
                    lemma_refunded_step(old(self).cache, before.cache, self.cache);
                    if result is Ok {
                        lemma_unlink_uses(before, *self, unit, result->Ok_0);
                        lemma_uses_shrink(*old(self), before, *self);
                    }
                    assert forall|other: Handle| #[trigger] old(
                        self,
                    ).units.records@.dom().contains(other) && old(
                        self,
                    ).units.records@[other].retirement is None implies self.units.records@[
                        other
                    ].lifecycle == old(self).units.records@[other].lifecycle
                        && self.units.records@[other].retirement is None by {
                        assert(before.units.records@.dom().contains(other));
                    }
                    assert forall|other: Handle| #[trigger] old(
                        self,
                    ).units.records@.dom().contains(other) implies same_standing(
                        self.units.records@[other],
                        old(self).units.records@[other],
                    ) by {
                        assert(before.units.records@.dom().contains(other));
                    }
                }
                if result? {
                    count = count + 1;
                    proof {
                        lemma_total_insert(gone, old(self).named_by(), unit);
                        gone = gone.insert(unit);
                    }
                }
                proof {
                    lemma_left_kept(*old(self), before, *self, gone, unit, result->Ok_0);
                    if result->Ok_0 {
                        lemma_cleared_step(*old(self), before, *self, earlier, unit);
                    } else {
                        lemma_kept_cleared(*old(self), before, *self, earlier);
                    }
                    lemma_pins_step(*old(self), before, *self, earlier, unit, result->Ok_0);
                    lemma_family_ended(
                        *old(self),
                        before,
                        *self,
                        earlier,
                        unit,
                        result->Ok_0,
                    );
                }
                proof {
                    assert forall|j: int|
                        0 <= j < k + 1 && (!hcq_only || self.units.records@[
                            #[trigger] handles@[j]
                        ].unit.input.tier == Tier::Hcq) implies self.units.records@[
                        handles@[j]
                    ].retirement is None by {
                        assert(old(self).units.records@.dom().contains(handles@[j]));
                        assert(before.units.records@.dom().contains(handles@[j]));
                    }
                    assert forall|j: int|
                        0 <= j < k + 1 && (!hcq_only || old(self).units.records@[
                            #[trigger] handles@[j]
                        ].unit.input.tier == Tier::Hcq) implies drained(
                        *old(self),
                        *self,
                        handles@[j],
                    ) by {
                        assert(old(self).units.records@.dom().contains(handles@[j]));
                        if j < k {
                            lemma_drained_later(*old(self), before, *self, handles@[j]);
                        } else {
                            lemma_drained_now(*old(self), before, *self, unit);
                        }
                    }
                }
            }
            k = k + 1;
        }
        proof {
            assert forall|unit: Handle| #[trigger]
                self.units.records@.dom().contains(unit) && (!hcq_only || self.units.records@[
                    unit
                ].unit.input.tier == Tier::Hcq) implies self.units.records@[
                unit
            ].retirement is None by {
                assert(old(self).units.records@.dom().contains(unit));
                let j = choose|j: int| 0 <= j < handles@.len() && handles@[j] == unit;
                assert(handles@[j] == unit);
            }
            assert forall|unit: Handle| #[trigger]
                old(self).units.records@.dom().contains(unit) implies if !hcq_only || old(
                self,
            ).units.records@[unit].unit.input.tier == Tier::Hcq {
                drained(*old(self), *self, unit)
            } else {
                &&& self.units.records@[unit].lifecycle == old(self).units.records@[unit].lifecycle
                &&& self.units.records@[unit].retirement == old(self).units.records@[unit].retirement
            } by {
                let j = choose|j: int| 0 <= j < handles@.len() && handles@[j] == unit;
                assert(handles@[j] == unit);
            }
        }
        proof {
            assert(gone =~= left_since(*old(self), *self));
        }
        Ok(count)
    }

    /// Unlinks every unit that is registered for removal: optimized code first,
    /// so that its promises end before the units that it relies on are looked at.
    pub fn drain_retirements(&mut self, transition: &Transition) -> (r: Result<usize, Error>)
        requires
            old(self).wf(),
        ensures
            final(self).wf(),
            final(self).readers == old(self).readers,
            only_refunded(old(self).cache, final(self).cache),
            final(self).identity == old(self).identity,
            final(self).units.tables == old(self).units.tables,
            final(self).units.borrowers == old(self).units.borrowers,
            final(self).units.dependencies == old(self).units.dependencies,
            final(self).units.shutdown_finished == old(self).units.shutdown_finished,
            removal_frame(*old(self), *final(self)),
            final(self).core.phase == old(self).core.phase || r is Err,
            final(self).core.failure == old(self).core.failure || r is Err,
            final(self).core.shutdown == old(self).core.shutdown,
            final(self).core.execution.id() >= old(self).core.execution.id(),
            same_units(*old(self), *final(self)),
            // What left before a refusal has left.
            removes(*old(self), *final(self), left_since(*old(self), *final(self))),
            others_stay(*old(self), *final(self)),
            uses_shrink(*old(self), *final(self)),
            kept_or_retired(*old(self), *final(self)),
            match r {
                Ok(count) => {
                    &&& old(self).core.closed_fault(*transition) is None
                    &&& count == left_since(*old(self), *final(self)).len()
                    &&& final(self).core == old(self).core.at_epoch(final(self).core)
                    &&& final(self).core.executions.last() == old(self).core.executions.last()
                        + count
                    &&& old(self).reachabilities.last() <= final(self).reachabilities.last()
                    &&& final(self).reachabilities.last() <= old(self).reachabilities.last()
                        + total(left_since(*old(self), *final(self)), old(self).named_by())
                    &&& forall|unit: Handle| #[trigger]
                        old(self).units.records@.dom().contains(unit) ==> drained(
                            *old(self),
                            *final(self),
                            unit,
                        )
                    &&& forall|unit: Handle| #[trigger]
                        final(self).units.records@.dom().contains(unit) ==> final(
                            self
                        ).units.records@[unit].retirement is None
                },
                Err(error) => {
                    ||| old(self).core.closed_fault(*transition) == Some(error) && *final(self)
                        == *old(self)
                    ||| old(self).core.closed_fault(*transition) is None && blocked(
                        *old(self),
                        *final(self),
                        error,
                    )
                },
            },
    {
        let result = self.drain_pass(transition, true);
        proof {
            lemma_awaiting_finite(*self);
            if result matches Err(error) && error == Error::PinnedBaseline {
                if exists|unit: Handle| #[trigger] stays_pinned(*self, unit, true) {
                    let unit = choose|unit: Handle| #[trigger] stays_pinned(*self, unit, true);
                    assert(holds_up(*old(self), *self, unit));
                }
            }
        }
        let first: usize = result?;
        let ghost middle = *self;
        let result = self.drain_pass(transition, false);
        proof {
            lemma_two_passes(*old(self), middle, *self);
            lemma_refunded_step(old(self).cache, middle.cache, self.cache);
            lemma_uses_shrink(*old(self), middle, *self);
            if result is Err && exists|unit: Handle| #[trigger] stays_pinned(*self, unit, false) {
                let unit = choose|unit: Handle| #[trigger] stays_pinned(*self, unit, false);
                assert forall|other: Handle| #[trigger] old(self).units.records@.dom().contains(
                    other,
                ) && old(self).units.records@[other].unit.input.tier == Tier::Hcq implies drained(
                    *old(self),
                    *self,
                    other,
                ) by {
                    assert(middle.units.records@.dom().contains(other));
                    assert(drained(*old(self), middle, other));
                    lemma_drained_later(*old(self), middle, *self, other);
                }
                assert(holds_up(*old(self), *self, unit));
            }
            if result is Ok {
                assert forall|unit: Handle| #[trigger] old(self).units.records@.dom().contains(
                    unit,
                ) implies drained(*old(self), *self, unit) by {
                    assert(middle.units.records@.dom().contains(unit));
                    if old(self).units.records@[unit].unit.input.tier == Tier::Hcq {
                        lemma_drained_later(*old(self), middle, *self, unit);
                    } else {
                        lemma_drained_between(*old(self), middle, *self, unit);
                    }
                }
            }
            assert forall|unit: Handle| #[trigger] old(self).units.records@.dom().contains(
                unit,
            ) && old(self).units.records@[unit].retirement is None implies self.units.records@[
                unit
            ].lifecycle == old(self).units.records@[unit].lifecycle && self.units.records@[
                unit
            ].retirement is None by {
                assert(middle.units.records@.dom().contains(unit));
            }
            assert forall|unit: Handle| #[trigger] old(self).units.records@.dom().contains(
                unit,
            ) implies same_standing(
                self.units.records@[unit],
                old(self).units.records@[unit],
            ) by {
                assert(middle.units.records@.dom().contains(unit));
            }
        }
        proof {
            lemma_left_twice(*old(self), middle, *self);
            let a = left_since(*old(self), middle);
            let b = left_since(middle, *self);
            assert(a.subset_of(old(self).units.records@.dom()));
            assert(b.subset_of(old(self).units.records@.dom()));
            lemma_families_twice(*old(self), middle, *self, a, b);
            lemma_cleared_twice(*old(self), middle, *self, a, b);
            lemma_pins_twice(*old(self), middle, *self, a, b);
        }
        let second: usize = result?;
        Ok(first.saturating_add(second))
    }

    /// Replaced code that nothing publishes or relies on any more.
    pub open spec fn rootless(&self, unit: Handle) -> bool {
        let record = self.units.records@[unit];
        &&& self.units.records@.dom().contains(unit)
        &&& record.lifecycle is Superseded
        &&& record.retirement is None
        &&& record.pins == 0
        &&& !self.rooted(record)
    }

    pub open spec fn rootless_units(&self) -> Set<Handle> {
        Set::new(|unit: Handle| self.rootless(unit))
    }

    /// Retires replaced code once nothing needs it.
    pub fn retire_rootless(&mut self) -> (r: Result<(), Error>)
        requires
            old(self).wf(),
        ensures
            final(self).wf(),
            *final(self) == (Lifetime {
                core: final(self).core,
                units: Units { records: final(self).units.records, ..old(self).units },
                ..*old(self)
            }),
            final(self).units.records@.dom() == old(self).units.records@.dom(),
            final(self).core.execution.id() >= old(self).core.execution.id(),
            forall|unit: Handle| #[trigger]
                old(self).units.records@.dom().contains(unit) ==> final(self).units.records@[unit]
                    == old(self).units.records@[unit] || old(self).rootless(unit) && retired_since(
                    old(self).units.records@[unit],
                    final(self).units.records@[unit],
                    old(self).core.execution,
                ),
            match r {
                Ok(_) => {
                    &&& final(self).core.executions.last() == old(self).core.executions.last()
                        + old(self).rootless_units().len()
                    &&& final(self).core == old(self).core.at_epoch(final(self).core)
                    &&& forall|unit: Handle| #[trigger]
                        old(self).units.records@.dom().contains(unit) ==> if old(self).rootless(
                            unit,
                        ) {
                            retired_since(
                                old(self).units.records@[unit],
                                final(self).units.records@[unit],
                                old(self).core.execution,
                            )
                        } else {
                            final(self).units.records@[unit] == old(self).units.records@[unit]
                        }
                },
                Err(error) => {
                    &&& exhausted(error, "ExecutionEpoch"@)
                    &&& final(self).core == old(self).core.at_epoch(final(self).core).failed_with(
                        error,
                    )
                    &&& old(self).core.executions.last() + old(self).rootless_units().len()
                        > u64::MAX
                },
            },
    {
        let handles = self.units.records.handles();
        let ghost mut gone: Set<Handle> = Set::empty();
        proof {
            self.units.records.lemma_countable();
            vstd::set_lib::lemma_len_subset(self.rootless_units(), self.units.records@.dom());
        }
        let mut k: usize = 0;
        while k < handles.len()
            invariant
                k <= handles@.len(),
                old(self).wf(),
                self.wf(),
                *self == (Lifetime {
                    core: self.core,
                    units: Units { records: self.units.records, ..old(self).units },
                    ..*old(self)
                }),
                self.units.records@.dom() == old(self).units.records@.dom(),
                self.core.execution.id() >= old(self).core.execution.id(),
                self.core == old(self).core.at_epoch(self.core),
                old(self).rootless_units().finite(),
                gone.finite(),
                gone.subset_of(old(self).rootless_units()),
                self.core.executions.last() == old(self).core.executions.last() + gone.len(),
                forall|j: int|
                    0 <= j < handles@.len() ==> (gone.contains(#[trigger] handles@[j]) <==> j < k
                        && old(self).rootless(handles@[j])),
                forall|h: Handle| #[trigger]
                    old(self).units.records@.dom().contains(h) ==> handles@.contains(h),
                forall|j: int|
                    0 <= j < handles@.len() ==> old(self).units.records@.dom().contains(
                        #[trigger] handles@[j],
                    ),
                forall|i: int, j: int|
                    0 <= i < j < handles@.len() ==> (#[trigger] handles@[i]).index < (
                    #[trigger] handles@[j]).index,
                forall|j: int|
                    0 <= j < k ==> if old(self).rootless(#[trigger] handles@[j]) {
                        retired_since(
                            old(self).units.records@[handles@[j]],
                            self.units.records@[handles@[j]],
                            old(self).core.execution,
                        )
                    } else {
                        self.units.records@[handles@[j]] == old(self).units.records@[handles@[j]]
                    },
                forall|j: int|
                    k <= j < handles@.len() ==> self.units.records@[#[trigger] handles@[j]] == old(
                        self,
                    ).units.records@[handles@[j]],
            decreases handles@.len() - k,
        {
            let unit = handles[k];
            let ghost before = *self;
            assert(old(self).units.records@.dom().contains(handles@[k as int]));
            assert(self.units.records@.dom().contains(unit));
            let mut candidate = false;
            let mut snapshots: usize = 0;
            if let Some(record) = self.units.records.get(unit) {
                candidate = matches!(record.lifecycle, Lifecycle::Superseded)
                    && record.retirement.is_none() && record.pins == 0;
                snapshots = record.snapshots;
            }
            proof {
                assert(self.rooted(self.units.records@[unit]) == old(self).rooted(
                    old(self).units.records@[unit],
                ));
            }
            if candidate && !self.is_rooted(unit) {
                let retired = self.core.execution;
                let result = self.core.next_execution();
                proof {
                    lemma_units_alike(before, *self);
                }
                proof {
                    assert forall|other: Handle| #[trigger] old(
                        self,
                    ).units.records@.dom().contains(other) implies self.units.records@[other]
                        == old(self).units.records@[other] || old(self).rootless(other)
                        && retired_since(
                        old(self).units.records@[other],
                        self.units.records@[other],
                        old(self).core.execution,
                    ) by {
                        let j = choose|j: int| 0 <= j < handles@.len() && handles@[j] == other;
                        assert(handles@[j] == other);
                    }
                }
                proof {
                    assert(old(self).rootless(unit));
                    assert(!gone.contains(handles@[k as int]));
                    assert(gone.insert(unit).subset_of(old(self).rootless_units()));
                    vstd::set_lib::lemma_len_subset(
                        gone.insert(unit),
                        old(self).rootless_units(),
                    );
                    gone = gone.insert(unit);
                }
                let next = result?;
                self.core.execution = next;
                proof {
                    lemma_units_alike(before, *self);
                }
                self.amend(unit, Lifecycle::Retired(retired), None, snapshots, 0);
            }
            proof {
                assert(self.units.records@.dom() =~= old(self).units.records@.dom());
                assert forall|j: int| 0 <= j < handles@.len() && j != k implies self.units.records@[
                    #[trigger] handles@[j]
                ] == before.units.records@[handles@[j]] by {
                    if j < k {
                        assert(handles@[j].index < handles@[k as int].index);
                    } else {
                        assert(handles@[k as int].index < handles@[j].index);
                    }
                }
            }
            k = k + 1;
        }
        proof {
            assert forall|unit: Handle| #[trigger] old(self).rootless_units().contains(
                unit,
            ) implies gone.contains(unit) by {
                assert(old(self).units.records@.dom().contains(unit));
                let j = choose|j: int| 0 <= j < handles@.len() && handles@[j] == unit;
                assert(gone.contains(handles@[j]));
            }
            assert(gone =~= old(self).rootless_units());
            assert forall|unit: Handle| #[trigger] old(self).units.records@.dom().contains(
                unit,
            ) implies if old(self).rootless(unit) {
                retired_since(
                    old(self).units.records@[unit],
                    self.units.records@[unit],
                    old(self).core.execution,
                )
            } else {
                self.units.records@[unit] == old(self).units.records@[unit]
            } by {
                let j = choose|j: int| 0 <= j < handles@.len() && handles@[j] == unit;
                assert(handles@[j] == unit);
            }
        }
        Ok(())
    }
}

/// The record retired at some epoch since `epoch`, and otherwise unchanged.
pub open spec fn retired_since(before: UnitRecord, after: UnitRecord, epoch: ExecutionEpoch) -> bool {
    &&& after.lifecycle matches Lifecycle::Retired(retired)
    &&& retired.id() >= epoch.id()
    &&& after == (UnitRecord { lifecycle: after.lifecycle, ..before })
}

proof fn lemma_unlinked_units(before: Lifetime, after: Lifetime, unit: Handle, unlinked: bool)
    requires
        before.units.records@.dom().contains(unit),
        if unlinked {
            family_dissolved(before, after, unit)
        } else {
            after.units.records@ == before.units.records@.insert(
                unit,
                UnitRecord { retirement: None, ..before.units.records@[unit] },
            )
        },
    ensures
        same_units(before, after),
        after.units.records@[unit].retirement is None,
        forall|other: Handle| #[trigger]
            before.units.records@.dom().contains(other) && other != unit
                ==> after.units.records@[other].lifecycle == before.units.records@[other].lifecycle
                && after.units.records@[other].retirement
                == before.units.records@[other].retirement,
{
    let retired = UnitRecord {
        lifecycle: Lifecycle::Retired(before.core.execution),
        retirement: None,
        ..before.units.records@[unit]
    };
    let middle = before.units.records@.insert(unit, retired);
    assert(middle.dom() =~= before.units.records@.dom());
    assert(after.units.records@.dom() =~= before.units.records@.dom());
    assert forall|other: Handle| #[trigger] before.units.records@.dom().contains(other) implies {
        &&& same_standing(after.units.records@[other], before.units.records@[other])
        &&& other != unit ==> after.units.records@[other].lifecycle
            == before.units.records@[other].lifecycle
        &&& other != unit ==> after.units.records@[other].retirement
            == before.units.records@[other].retirement
    } by {
        assert(middle.dom().contains(other));
    }
    assert(middle.dom().contains(unit));
}

/// A unit that no slot published is still published by none.
proof fn lemma_unrooted(before: Lifetime, after: Lifetime, was: UnitRecord, record: UnitRecord)
    requires
        uses_shrink(before, after),
        same_unit(record, was),
        forall|i: int|
            0 <= i < was.slots@.len() ==> before.slots@.dom().contains(#[trigger] was.slots@[i]),
    ensures
        after.rooted(record) ==> before.rooted(was),
{
    if after.rooted(record) {
        let i = choose|i: int|
            0 <= i < record.slots@.len() && names_unit(
                after.slots@[#[trigger] record.slots@[i]].payload,
                record.unit.id,
                record.unit.version,
            );
        assert(names_unit(
            before.slots@[was.slots@[i]].payload,
            was.unit.id,
            was.unit.version,
        ));
    }
}

proof fn lemma_uses_shrink(first: Lifetime, second: Lifetime, third: Lifetime)
    requires
        same_units(first, second),
        uses_shrink(first, second),
        second == third || uses_shrink(second, third),
    ensures
        uses_shrink(first, third),
{
    assert forall|unit: Handle| #[trigger] first.units.records@.dom().contains(unit)
        && first.units.records@[unit].pins == 0 implies third.units.records@[unit].pins == 0 by {
        assert(second.units.records@.dom().contains(unit));
    }
}

/// Unlinking a unit takes it out of its slots, and adds it to none.
proof fn lemma_unlink_uses(before: Lifetime, after: Lifetime, unit: Handle, unlinked: bool)
    requires
        before.wf(),
        before.units.records@.dom().contains(unit),
        if unlinked {
            &&& family_dissolved(before, after, unit)
            &&& slots_without(
                before,
                after,
                before.units.records@[unit].slots@,
                before.units.records@[unit].unit.id,
                before.units.records@[unit].unit.version,
                before.core.execution,
            )
        } else {
            &&& after.slots == before.slots
            &&& after.units.records@ == before.units.records@.insert(
                unit,
                UnitRecord { retirement: None, ..before.units.records@[unit] },
            )
        },
    ensures
        uses_shrink(before, after),
        unlinked ==> after.units.records@[unit].lifecycle is Retired && !after.rooted(
            after.units.records@[unit],
        ),
        !unlinked ==> after.units.records@[unit].lifecycle == before.units.records@[unit].lifecycle,
{
    let record = before.units.records@[unit];
    let middle = before.units.records@.insert(
        unit,
        UnitRecord {
            lifecycle: Lifecycle::Retired(before.core.execution),
            retirement: None,
            ..record
        },
    );
    assert(middle.dom().contains(unit));
    assert forall|other: Handle| #[trigger] before.units.records@.dom().contains(other)
        && before.units.records@[other].pins == 0 implies after.units.records@[other].pins == 0 by {
        assert(middle.dom().contains(other));
    }
    if unlinked {
        assert(after.units.records@[unit].slots == record.slots);
        assert forall|i: int| 0 <= i < record.slots@.len() implies !names_unit(
            after.slots@[#[trigger] record.slots@[i]].payload,
            record.unit.id,
            record.unit.version,
        ) by {
            assert(before.slots@.dom().contains(before.units.records@[unit].slots@[i]));
            assert(record.slots@.contains(record.slots@[i]));
        }
    }
}

/// What was drained stays drained.
pub(crate) proof fn lemma_drained_later(first: Lifetime, second: Lifetime, third: Lifetime, unit: Handle)
    requires
        first.wf(),
        second.wf(),
        same_units(first, second),
        same_units(second, third),
        uses_shrink(second, third),
        first.units.records@.dom().contains(unit),
        drained(first, second, unit),
        first.units.records@[unit].retirement is Some ==> third.units.records@[unit].lifecycle
            == second.units.records@[unit].lifecycle && third.units.records@[unit].retirement
            is None,
    ensures
        drained(first, third, unit),
{
    assert(second.units.records@.dom().contains(unit));
    let was = second.units.records@[unit];
    assert forall|i: int| 0 <= i < was.slots@.len() implies second.slots@.dom().contains(
        #[trigger] was.slots@[i],
    ) by {
        assert(second.slots@.dom().contains(second.units.records@[unit].slots@[i]));
    }
    lemma_unrooted(second, third, was, third.units.records@[unit]);
}

/// A unit that waited until now is drained now.
proof fn lemma_drained_now(first: Lifetime, second: Lifetime, third: Lifetime, unit: Handle)
    requires
        first.wf(),
        same_units(first, second),
        same_units(second, third),
        uses_shrink(first, second),
        first.units.records@.dom().contains(unit),
        second.units.records@[unit].lifecycle == first.units.records@[unit].lifecycle,
        second.units.records@[unit].retirement == first.units.records@[unit].retirement,
        third.units.records@[unit].retirement is None,
        third.units.records@[unit].lifecycle is Retired && !third.rooted(
            third.units.records@[unit],
        ) || {
            &&& second.units.records@[unit].retirement is Some
            &&& second.units.records@[unit].retirement->0.reason == Reason::TierCutover
            &&& third.units.records@[unit].lifecycle == second.units.records@[unit].lifecycle
            &&& second.rooted(second.units.records@[unit])
                || second.units.records@[unit].pins != 0
        },
    ensures
        drained(first, third, unit),
{
    let was = first.units.records@[unit];
    assert forall|i: int| 0 <= i < was.slots@.len() implies first.slots@.dom().contains(
        #[trigger] was.slots@[i],
    ) by {
        assert(first.slots@.dom().contains(first.units.records@[unit].slots@[i]));
    }
    lemma_unrooted(first, second, was, second.units.records@[unit]);
}

/// A unit that waited through one pass is drained by the next.
proof fn lemma_drained_between(first: Lifetime, second: Lifetime, third: Lifetime, unit: Handle)
    requires
        first.wf(),
        same_units(first, second),
        uses_shrink(first, second),
        first.units.records@.dom().contains(unit),
        second.units.records@[unit].lifecycle == first.units.records@[unit].lifecycle,
        second.units.records@[unit].retirement == first.units.records@[unit].retirement,
        drained(second, third, unit),
    ensures
        drained(first, third, unit),
{
    let was = first.units.records@[unit];
    assert forall|i: int| 0 <= i < was.slots@.len() implies first.slots@.dom().contains(
        #[trigger] was.slots@[i],
    ) by {
        assert(first.slots@.dom().contains(first.units.records@[unit].slots@[i]));
    }
    lemma_unrooted(first, second, was, second.units.records@[unit]);
}

/// The unit waits for its removal while another relies on it.
spec fn stays_pinned(process: Lifetime, unit: Handle, hcq_only: bool) -> bool {
    &&& process.awaits_removal(unit)
    &&& process.units.records@[unit].pins != 0
    &&& process.units.records@[unit].retirement->0.reason != Reason::TierCutover
    &&& hcq_only ==> process.units.records@[unit].unit.input.tier == Tier::Hcq
}

pub(crate) proof fn lemma_awaiting_finite(process: Lifetime)
    requires
        process.units.records.wf(),
    ensures
        process.awaiting().finite(),
        process.awaiting().len() <= process.units.records@.dom().len() <= usize::MAX,
{
    process.units.records.lemma_countable();
    vstd::set_lib::lemma_len_subset(process.awaiting(), process.units.records@.dom());
}

/// A unit is published by no more slots than before.
proof fn lemma_named_shrinks(before: Lifetime, after: Lifetime, unit: Handle, count: int)
    requires
        before.wf(),
        same_units(before, after),
        uses_shrink(before, after),
        before.units.records@.dom().contains(unit),
        0 <= count <= before.units.records@[unit].slots@.len(),
    ensures
        0 <= named_slots(after, after.units.records@[unit], count) <= named_slots(
            before,
            before.units.records@[unit],
            count,
        ),
    decreases count,
{
    if count > 0 {
        lemma_named_shrinks(before, after, unit, count - 1);
        assert(before.slots@.dom().contains(before.units.records@[unit].slots@[count - 1]));
    }
}

proof fn lemma_named_nonnegative(process: Lifetime, record: UnitRecord, count: int)
    ensures
        0 <= named_slots(process, record, count),
    decreases count,
{
    if count > 0 {
        lemma_named_nonnegative(process, record, count - 1);
    }
}

/// What the next unit needs counts among what all that wait need.
proof fn lemma_next_unit(start: Lifetime, current: Lifetime, gone: Set<Handle>, unit: Handle)
    requires
        start.wf(),
        same_units(start, current),
        uses_shrink(start, current),
        start.awaiting().finite(),
        gone.finite(),
        gone.subset_of(start.awaiting()),
        start.awaits_removal(unit),
        !gone.contains(unit),
    ensures
        gone.len() + 1 <= start.awaiting().len(),
        current.named_by()(unit) <= start.named_by()(unit),
        total(gone, start.named_by()) + start.named_by()(unit) <= total(
            start.awaiting(),
            start.named_by(),
        ),
{
    assert(gone.insert(unit).subset_of(start.awaiting()));
    vstd::set_lib::lemma_len_subset(gone.insert(unit), start.awaiting());
    lemma_named_shrinks(start, current, unit, start.units.records@[unit].slots@.len() as int);
    assert forall|h: Handle| #[trigger] start.awaiting().contains(h) implies 0 <= start.named_by()(
        h,
    ) by {
        lemma_named_nonnegative(
            start,
            start.units.records@[h],
            start.units.records@[h].slots@.len() as int,
        );
    }
    lemma_total_insert(gone, start.named_by(), unit);
    lemma_total_within(gone.insert(unit), start.named_by(), start.awaiting(), start.named_by());
}

/// The set of units that were retired since follows one more removal.
proof fn lemma_left_kept(
    start: Lifetime,
    before: Lifetime,
    after: Lifetime,
    gone: Set<Handle>,
    unit: Handle,
    unlinked: bool,
)
    requires
        start.wf(),
        start.awaits_removal(unit),
        same_units(start, before),
        before.core.execution.id() >= start.core.execution.id(),
        kept_or_retired(start, before),
        before.units.records@[unit].lifecycle == start.units.records@[unit].lifecycle,
        if unlinked {
            family_dissolved(before, after, unit)
        } else {
            after.units.records@ == before.units.records@.insert(
                unit,
                UnitRecord { retirement: None, ..before.units.records@[unit] },
            )
        },
        forall|other: Handle| #[trigger]
            before.units.records@.dom().contains(other) && other != unit
                ==> after.units.records@[other].lifecycle == before.units.records@[other].lifecycle,
        gone.contains(unit) == unlinked,
        forall|h: Handle| #[trigger]
            start.awaits_removal(h) && h != unit ==> (gone.contains(h) <==> retired_after(
                before.units.records@[h],
                start.core.execution,
            )),
    ensures
        kept_or_retired(start, after),
        forall|h: Handle| #[trigger]
            start.awaits_removal(h) ==> (gone.contains(h) <==> retired_after(
                after.units.records@[h],
                start.core.execution,
            )),
{
    let retired = UnitRecord {
        lifecycle: Lifecycle::Retired(before.core.execution),
        retirement: None,
        ..before.units.records@[unit]
    };
    let middle = before.units.records@.insert(unit, retired);
    assert(middle.dom().contains(unit));
    assert(start.units.records@.dom().contains(unit));
    assert(unlinked ==> after.units.records@[unit].lifecycle == retired.lifecycle);
    assert forall|h: Handle| #[trigger] start.awaits_removal(h) implies (gone.contains(h)
        <==> retired_after(after.units.records@[h], start.core.execution)) by {
        assert(before.units.records@.dom().contains(h));
    }
    assert forall|h: Handle| #[trigger] start.units.records@.dom().contains(
        h,
    ) implies after.units.records@[h].lifecycle == start.units.records@[h].lifecycle
        || retired_after(after.units.records@[h], start.core.execution) by {
        assert(before.units.records@.dom().contains(h));
    }
}

/// What the second pass needs counts among what all that waited need.
proof fn lemma_two_passes(start: Lifetime, middle: Lifetime, last: Lifetime)
    requires
        start.wf(),
        middle.wf(),
        same_units(start, middle),
        others_stay(start, middle),
        uses_shrink(start, middle),
        kept_or_retired(start, middle),
        middle.core.execution.id() >= start.core.execution.id(),
        kept_or_retired(middle, last),
        middle.core.executions.last() == start.core.executions.last() + left_since(
            start,
            middle,
        ).len(),
        middle.reachabilities.last() <= start.reachabilities.last() + total(
            left_since(start, middle),
            start.named_by(),
        ),
        forall|unit: Handle| #[trigger]
            start.units.records@.dom().contains(unit) ==> middle.units.records@[unit].retirement
                is None || middle.units.records@[unit].lifecycle
                == start.units.records@[unit].lifecycle,
    ensures
        kept_or_retired(start, last),
        left_since(start, middle).finite(),
        left_since(start, middle).disjoint(middle.awaiting()),
        middle.awaiting().subset_of(start.awaiting()),
        middle.epochs_short() ==> start.epochs_short(),
        middle.reachabilities_short() ==> start.reachabilities_short(),
{
    let left = left_since(start, middle);
    lemma_awaiting_finite(start);
    lemma_awaiting_finite(middle);
    assert(left.subset_of(start.awaiting()));
    vstd::set_lib::lemma_len_subset(left, start.awaiting());
    assert forall|unit: Handle| #[trigger] middle.awaiting().contains(unit) implies start.awaiting().contains(
        unit,
    ) && !left.contains(unit) by {
        assert(start.units.records@.dom().contains(unit));
    }
    let both = left.union(middle.awaiting());
    assert(both.subset_of(start.awaiting()));
    vstd::set_lib::lemma_len_subset(both, start.awaiting());
    vstd::set_lib::lemma_set_disjoint_lens(left, middle.awaiting());
    assert forall|h: Handle| #[trigger] start.awaiting().contains(h) implies 0 <= start.named_by()(
        h,
    ) by {
        lemma_named_nonnegative(
            start,
            start.units.records@[h],
            start.units.records@[h].slots@.len() as int,
        );
    }
    assert forall|h: Handle| #[trigger] middle.awaiting().contains(h) implies middle.named_by()(h)
        <= start.named_by()(h) && 0 <= start.named_by()(h) by {
        assert(start.awaiting().contains(h));
        lemma_named_shrinks(start, middle, h, start.units.records@[h].slots@.len() as int);
    }
    lemma_total_within(
        middle.awaiting(),
        middle.named_by(),
        middle.awaiting(),
        start.named_by(),
    );
    lemma_total_union(left, middle.awaiting(), start.named_by());
    lemma_total_within(both, start.named_by(), start.awaiting(), start.named_by());
    assert forall|unit: Handle| #[trigger] start.units.records@.dom().contains(
        unit,
    ) implies last.units.records@[unit].lifecycle == start.units.records@[unit].lifecycle
        || retired_after(last.units.records@[unit], start.core.execution) by {
        assert(middle.units.records@.dom().contains(unit));
    }
}

/// What left in two passes left in one of them.
proof fn lemma_left_twice(start: Lifetime, middle: Lifetime, last: Lifetime)
    requires
        start.wf(),
        middle.wf(),
        same_units(start, middle),
        others_stay(start, middle),
        others_stay(middle, last),
        uses_shrink(start, middle),
        kept_or_retired(start, middle),
        kept_or_retired(middle, last),
        middle.core.execution.id() >= start.core.execution.id(),
        forall|unit: Handle| #[trigger]
            start.units.records@.dom().contains(unit) ==> middle.units.records@[unit].retirement
                is None || middle.units.records@[unit].lifecycle
                == start.units.records@[unit].lifecycle,
    ensures
        left_since(start, last) == left_since(start, middle).union(left_since(middle, last)),
        left_since(start, middle).disjoint(left_since(middle, last)),
        left_since(start, last).finite(),
        left_since(start, last).len() == left_since(start, middle).len() + left_since(
            middle,
            last,
        ).len(),
        left_since(start, last).len() <= usize::MAX,
        total(left_since(start, middle), start.named_by()) + total(
            left_since(middle, last),
            middle.named_by(),
        ) <= total(left_since(start, last), start.named_by()),
{
    let a = left_since(start, middle);
    let b = left_since(middle, last);
    let both = left_since(start, last);
    lemma_awaiting_finite(start);
    lemma_awaiting_finite(middle);
    assert(a.subset_of(start.awaiting()));
    assert(b.subset_of(middle.awaiting()));
    assert(both.subset_of(start.awaiting()));
    vstd::set_lib::lemma_len_subset(a, start.awaiting());
    vstd::set_lib::lemma_len_subset(b, middle.awaiting());
    vstd::set_lib::lemma_len_subset(both, start.awaiting());
    assert forall|unit: Handle| #[trigger] both.contains(unit) implies a.contains(unit)
        || b.contains(unit) by {
        assert(start.units.records@.dom().contains(unit));
        assert(middle.units.records@.dom().contains(unit));
    }
    assert forall|unit: Handle| #[trigger] a.contains(unit) implies both.contains(unit)
        && !b.contains(unit) by {
        assert(start.units.records@.dom().contains(unit));
        assert(middle.units.records@.dom().contains(unit));
    }
    assert forall|unit: Handle| #[trigger] b.contains(unit) implies both.contains(unit) by {
        assert(middle.units.records@.dom().contains(unit));
        assert(start.units.records@.dom().contains(unit));
    }
    assert(both =~= a.union(b));
    vstd::set_lib::lemma_set_disjoint_lens(a, b);
    assert forall|h: Handle| #[trigger] b.contains(h) implies middle.named_by()(h)
        <= start.named_by()(h) && 0 <= start.named_by()(h) by {
        assert(middle.units.records@.dom().contains(h));
        assert(start.units.records@.dom().contains(h));
        lemma_named_shrinks(start, middle, h, start.units.records@[h].slots@.len() as int);
    }
    lemma_total_within(b, middle.named_by(), b, start.named_by());
    lemma_total_union(a, b, start.named_by());
}

/// One more unit ends its family.
proof fn lemma_family_ended(
    start: Lifetime,
    before: Lifetime,
    after: Lifetime,
    gone: Set<Handle>,
    unit: Handle,
    unlinked: bool,
)
    requires
        start.wf(),
        same_units(start, before),
        start.units.records@.dom().contains(unit),
        families_ended(start, before, gone),
        if unlinked {
            family_dissolved(before, after, unit)
        } else {
            after.units.families == before.units.families && after.cache == before.cache
        },
    ensures
        families_ended(
            start,
            after,
            if unlinked {
                gone.insert(unit)
            } else {
                gone
            },
        ),
{
    start.units.families.lemma_countable();
    let record = before.units.records@[unit];
    assert(record.family == start.units.records@[unit].family);
    if unlinked {
        let more = gone.insert(unit);
        assert forall|family: Handle| #[trigger] start.units.families@.dom().contains(
            family,
        ) implies (belongs_to(start, more, family) <==> belongs_to(start, gone, family)
            || record.family == Some(family)) by {
            if belongs_to(start, more, family) {
                let owner = choose|owner: Handle| #[trigger]
                    more.contains(owner) && start.units.records@[owner].family == Some(family);
                if owner != unit {
                    assert(gone.contains(owner));
                }
            }
            if belongs_to(start, gone, family) {
                let owner = choose|owner: Handle| #[trigger]
                    gone.contains(owner) && start.units.records@[owner].family == Some(family);
                assert(more.contains(owner));
            }
            assert(more.contains(unit));
        }
        if record.family is Some && before.units.families@.dom().contains(record.family->0) {
            let family = record.family->0;
            assert(start.units.families@.dom().contains(family));
            assert(!ended(start, before).contains(family));
            assert(ended(start, after) =~= ended(start, before).insert(family));
            lemma_total_insert(ended(start, before), start.family_charge(), family);
            lemma_refunds_add(
                start.cache,
                total(ended(start, before), start.family_charge()),
                before.units.families@[family].charge.bytes as int,
            );
        } else {
            assert(ended(start, after) =~= ended(start, before));
        }
    } else {
        assert(ended(start, after) =~= ended(start, before));
    }
}

/// What ended in two passes ended in one of them.
proof fn lemma_families_twice(
    start: Lifetime,
    middle: Lifetime,
    last: Lifetime,
    a: Set<Handle>,
    b: Set<Handle>,
)
    requires
        start.wf(),
        same_units(start, middle),
        a.subset_of(start.units.records@.dom()),
        b.subset_of(start.units.records@.dom()),
        families_ended(start, middle, a),
        families_ended(middle, last, b),
    ensures
        families_ended(start, last, a.union(b)),
{
    start.units.families.lemma_countable();
    let both = a.union(b);
    assert forall|family: Handle| belongs_to(start, both, family) <==> (#[trigger] belongs_to(
        start,
        a,
        family,
    ) || belongs_to(middle, b, family)) by {
        if belongs_to(start, both, family) {
            let owner = choose|owner: Handle| #[trigger]
                both.contains(owner) && start.units.records@[owner].family == Some(family);
            assert(start.units.records@.dom().contains(owner));
            if !a.contains(owner) {
                assert(b.contains(owner) && middle.units.records@[owner].family == Some(family));
            }
        }
        if belongs_to(start, a, family) {
            let owner = choose|owner: Handle| #[trigger]
                a.contains(owner) && start.units.records@[owner].family == Some(family);
            assert(both.contains(owner));
        }
        if belongs_to(middle, b, family) {
            let owner = choose|owner: Handle| #[trigger]
                b.contains(owner) && middle.units.records@[owner].family == Some(family);
            assert(start.units.records@.dom().contains(owner));
            assert(both.contains(owner));
        }
    }
    let first = ended(start, middle);
    let second = ended(middle, last);
    assert forall|family: Handle| #[trigger] second.contains(family) implies start.family_charge()(
        family,
    ) == middle.family_charge()(family) by {
        assert(middle.units.families@.dom().contains(family));
    }
    assert(second.subset_of(start.units.families@.dom())) by {
        assert forall|family: Handle| #[trigger] second.contains(
            family,
        ) implies start.units.families@.dom().contains(family) by {
            assert(middle.units.families@.dom().contains(family));
        }
    }
    vstd::set_lib::lemma_len_subset(first, start.units.families@.dom());
    vstd::set_lib::lemma_len_subset(second, start.units.families@.dom());
    lemma_total_alike(second, start.family_charge(), middle.family_charge());
    assert(ended(start, last) =~= first.union(second)) by {
        assert forall|family: Handle| #[trigger] ended(start, last).contains(family) <==> first.union(
            second,
        ).contains(family) by {
            if last.units.families@.dom().contains(family) {
                assert(middle.units.families@.dom().contains(family));
            }
        }
    }
    lemma_total_union(first, second, start.family_charge());
    lemma_refunds_add(
        start.cache,
        total(first, start.family_charge()),
        total(second, middle.family_charge()),
    );
    assert forall|family: Handle| #[trigger]
        last.units.families@.dom().contains(family) <==> start.units.families@.dom().contains(
            family,
        ) && !belongs_to(start, both, family) by {
        assert(belongs_to(start, a, family) || !belongs_to(start, a, family));
        assert(middle.units.families@.dom().contains(family) <==> start.units.families@.dom().contains(
            family,
        ) && !belongs_to(start, a, family));
    }
    assert forall|family: Handle| #[trigger]
        last.units.families@.dom().contains(family) implies last.units.families@[family]
        == start.units.families@[family] by {
        assert(middle.units.families@.dom().contains(family));
    }
}

/// A unit that was kept left no slot.
proof fn lemma_kept_cleared(start: Lifetime, before: Lifetime, after: Lifetime, units: Set<Handle>)
    requires
        slots_cleared(start, before, units),
        after.slots == before.slots,
        after.keys == before.keys,
    ensures
        slots_cleared(start, after, units),
{
}

/// Units that were only marked before the removal are removed the same.
pub(crate) proof fn lemma_marked_before(
    start: Lifetime,
    marked: Lifetime,
    last: Lifetime,
    units: Set<Handle>,
)
    requires
        start.wf(),
        marked.wf(),
        removal_frame(start, marked),
        same_units(start, marked),
        forall|unit: Handle| #[trigger]
            start.units.records@.dom().contains(unit) ==> marked.units.records@[unit].pins
                == start.units.records@[unit].pins,
        marked.slots == start.slots,
        marked.keys == start.keys,
        marked.units.families == start.units.families,
        marked.cache == start.cache,
        marked.reachabilities == start.reachabilities,
        marked.core.execution == start.core.execution,
        units.subset_of(start.units.records@.dom()),
        removes(marked, last, units),
    ensures
        removes(start, last, units),
{
    let none = Set::<Handle>::empty();
    lemma_nothing_cleared(start);
    lemma_kept_cleared(start, start, marked, none);
    lemma_refunded_nothing(start.cache);
    assert(ended(start, marked) =~= none);
    assert(families_ended(start, marked, none));
    assert(pins_released(start, marked));
    lemma_cleared_twice(start, marked, last, none, units);
    lemma_families_twice(start, marked, last, none, units);
    lemma_pins_twice(start, marked, last, none, units);
    assert(none.union(units) =~= units);
    assert forall|unit: Handle| #[trigger] start.units.records@.dom().contains(
        unit,
    ) implies same_standing(last.units.records@[unit], start.units.records@[unit]) by {
        assert(marked.units.records@.dom().contains(unit));
    }
}

/// A unit that waited for its removal waits no longer once it is drained. It is retired and in
/// no slot any more, but for replaced code that a slot or another unit still needed.
pub proof fn law_drained_units_stop_waiting(before: Lifetime, after: Lifetime, unit: Handle)
    requires
        before.awaits_removal(unit),
        drained(before, after, unit),
    ensures
        !after.awaits_removal(unit),
        after.units.records@[unit].lifecycle is Retired || {
            &&& before.units.records@[unit].retirement->0.reason == Reason::TierCutover
            &&& after.units.records@[unit].lifecycle == before.units.records@[unit].lifecycle
            &&& before.units.records@[unit].pins != 0 || before.rooted(before.units.records@[unit])
        },
{
}

} // verus!
