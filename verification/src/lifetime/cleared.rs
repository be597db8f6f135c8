//! What a removal leaves of the slots, the keys and the promises of the others.

use vstd::prelude::*;
use super::drain::{ended, families_ended, same_units};
use super::process::{count_down, DispatchSlot, Lifecycle, Lifetime, UnitRecord};
use super::reclaim::{
    family_dissolved, hcq_entry, names, names_unit, slot_without, slots_renewed, slots_without,
};
use super::registry::Handle;
use super::sums::{
    lemma_total_alike, lemma_total_insert, lemma_total_union, lemma_total_within, total,
};
use crate::abi::dispatch::PublishedEntry;
use crate::abi::identity::Identity;
use crate::abi::keys::BlockKey;

verus! {

/// The entry in the slot is one of a unit of the set, and that unit has the slot.
pub open spec fn leaves_slot(
    before: Lifetime,
    units: Set<Handle>,
    slot: Handle,
    entry: Option<PublishedEntry>,
) -> bool {
    exists|unit: Handle| #[trigger]
        units.contains(unit) && before.units.records@[unit].slots@.contains(slot) && names(
            entry,
            before.units.records@[unit].unit.id,
            before.units.records@[unit].unit.version,
        )
}

/// The slot publishes some unit of the set.
pub open spec fn touched(before: Lifetime, units: Set<Handle>, slot: Handle) -> bool {
    let payload = before.slots@[slot].payload;
    leaves_slot(before, units, slot, payload.lcq_of()) || leaves_slot(
        before,
        units,
        slot,
        hcq_entry(payload),
    )
}

/// The slot publishes what it did, without the units. What changed has a new
/// reachability.
pub open spec fn payload_cleared(
    before: Lifetime,
    after: DispatchSlot,
    units: Set<Handle>,
    slot: Handle,
) -> bool {
    let was = before.slots@[slot];
    &&& after.key == was.key
    &&& after.charge == was.charge
    &&& after.payload.lcq_of() == if leaves_slot(before, units, slot, was.payload.lcq_of()) {
        None
    } else {
        was.payload.lcq_of()
    }
    &&& after.payload.hcq_of() == if leaves_slot(before, units, slot, hcq_entry(was.payload)) {
        None
    } else {
        was.payload.hcq_of()
    }
    &&& if touched(before, units, slot) {
        after.payload.reachability_of().id() > before.reachabilities.last()
    } else {
        after.payload == was.payload
    }
}

/// The slot was taken out of use now.
pub open spec fn retired_now(before: Lifetime, after: DispatchSlot) -> bool {
    after.retired matches Some(epoch) && epoch.id() >= before.core.execution.id()
}

/// The slot without the units: one that they emptied is out of use.
pub open spec fn slot_cleared(
    before: Lifetime,
    after: DispatchSlot,
    units: Set<Handle>,
    slot: Handle,
) -> bool {
    &&& payload_cleared(before, after, units, slot)
    &&& if touched(before, units, slot) && after.payload.preferred_of() is None {
        retired_now(before, after)
    } else {
        after.retired == before.slots@[slot].retired
    }
}

/// Every slot is as it was, without the units. Only the keys of slots that they
/// emptied are gone.
pub open spec fn slots_cleared(before: Lifetime, after: Lifetime, units: Set<Handle>) -> bool {
    &&& after.slots@.dom() == before.slots@.dom()
    &&& forall|slot: Handle| #[trigger]
        before.slots@.dom().contains(slot) ==> slot_cleared(
            before,
            after.slots@[slot],
            units,
            slot,
        )
    &&& forall|key: BlockKey| #[trigger]
        after.keys@.dom().contains(key) <==> before.keys@.dom().contains(key) && !(touched(
            before,
            units,
            before.keys@[key],
        ) && after.slots@[before.keys@[key]].payload.preferred_of() is None)
    &&& forall|key: BlockKey| #[trigger]
        after.keys@.dom().contains(key) ==> after.keys@[key] == before.keys@[key]
}

/// Every slot is as it was, without the units. The keys of slots that publish nothing
/// are gone, and those slots are out of use.
pub open spec fn slots_relieved(before: Lifetime, after: Lifetime, units: Set<Handle>) -> bool {
    &&& after.slots@.dom() == before.slots@.dom()
    &&& forall|slot: Handle| #[trigger]
        before.slots@.dom().contains(slot) ==> {
            let was = before.slots@[slot];
            let now = after.slots@[slot];
            &&& payload_cleared(before, now, units, slot)
            &&& if now.payload.preferred_of() is None && (touched(before, units, slot)
                || before.names_slot(slot)) {
                retired_now(before, now)
            } else {
                now.retired == was.retired
            }
        }
    &&& forall|key: BlockKey| #[trigger]
        after.keys@.dom().contains(key) <==> before.keys@.dom().contains(key)
            && after.slots@[before.keys@[key]].payload.preferred_of() is Some
    &&& forall|key: BlockKey| #[trigger]
        after.keys@.dom().contains(key) ==> after.keys@[key] == before.keys@[key]
}

impl Lifetime {
    /// The key of the slot leads to it.
    pub open spec fn names_slot(&self, slot: Handle) -> bool {
        let key = self.slots@[slot].key;
        self.keys@.dom().contains(key) && self.keys@[key] == slot
    }

    /// Which families rely on the unit, each counted once.
    pub open spec fn reliance_on(&self, unit: Handle) -> spec_fn(Handle) -> int {
        |family: Handle|
            if self.units.families@[family].baselines@.contains(unit) {
                1int
            } else {
                0
            }
    }
}

/// A count after `times` less. A count that is at its end stays there.
pub open spec fn lowered(count: usize, times: int) -> usize {
    if count == usize::MAX {
        count
    } else if times >= count {
        0
    } else {
        (count - times) as usize
    }
}

/// Each family that ended took one pin from each unit that it relied on. No other
/// pin is gone.
pub open spec fn pins_released(before: Lifetime, after: Lifetime) -> bool {
    forall|unit: Handle| #[trigger]
        before.units.records@.dom().contains(unit) ==> after.units.records@[unit].pins == lowered(
            before.units.records@[unit].pins,
            total(ended(before, after), before.reliance_on(unit)),
        )
}

/// A key stays with its slot, and the slot with its baseline code, where only other code
/// is removed: a region whose optimized code goes still runs what it ran before.
pub proof fn law_removal_keeps_other_code(
    before: Lifetime,
    after: Lifetime,
    units: Set<Handle>,
    key: BlockKey,
)
    requires
        before.wf(),
        slots_cleared(before, after, units),
        before.keys@.dom().contains(key),
        before.slots@[before.keys@[key]].payload.lcq_of() is Some,
        !leaves_slot(
            before,
            units,
            before.keys@[key],
            before.slots@[before.keys@[key]].payload.lcq_of(),
        ),
    ensures
        after.keys@.dom().contains(key),
        after.keys@[key] == before.keys@[key],
        after.slots@[after.keys@[key]].payload.lcq_of()
            == before.slots@[before.keys@[key]].payload.lcq_of(),
        after.slots@[after.keys@[key]].retired is None,
{
    let slot = before.keys@[key];
    assert(before.slots@.dom().contains(slot));
    assert(slot_cleared(before, after.slots@[slot], units, slot));
}

pub(crate) proof fn lemma_nothing_cleared(process: Lifetime)
    requires
        process.wf(),
    ensures
        slots_cleared(process, process, Set::empty()),
        pins_released(process, process),
{
    assert(ended(process, process) =~= Set::<Handle>::empty());
    assert forall|slot: Handle, entry: Option<PublishedEntry>|
        !#[trigger] leaves_slot(process, Set::empty(), slot, entry) by {}
}

/// What the larger set leaves.
proof fn lemma_one_more_leaves(
    start: Lifetime,
    units: Set<Handle>,
    unit: Handle,
    slot: Handle,
    entry: Option<PublishedEntry>,
)
    ensures
        leaves_slot(start, units.insert(unit), slot, entry) <==> leaves_slot(
            start,
            units,
            slot,
            entry,
        ) || start.units.records@[unit].slots@.contains(slot) && names(
            entry,
            start.units.records@[unit].unit.id,
            start.units.records@[unit].unit.version,
        ),
{
    let more = units.insert(unit);
    if leaves_slot(start, units, slot, entry) {
        let owner = choose|owner: Handle| #[trigger]
            units.contains(owner) && start.units.records@[owner].slots@.contains(slot) && names(
                entry,
                start.units.records@[owner].unit.id,
                start.units.records@[owner].unit.version,
            );
        assert(more.contains(owner));
    }
    assert(more.contains(unit));
    if leaves_slot(start, more, slot, entry) {
        let owner = choose|owner: Handle| #[trigger]
            more.contains(owner) && start.units.records@[owner].slots@.contains(slot) && names(
                entry,
                start.units.records@[owner].unit.id,
                start.units.records@[owner].unit.version,
            );
        if owner != unit {
            assert(units.contains(owner));
        }
    }
}

/// One more unit left its slots.
pub(crate) proof fn lemma_cleared_step(
    start: Lifetime,
    before: Lifetime,
    after: Lifetime,
    units: Set<Handle>,
    unit: Handle,
)
    requires
        start.wf(),
        before.wf(),
        start.units.records@.dom().contains(unit),
        same_units(start, before),
        slots_cleared(start, before, units),
        start.core.execution.id() <= before.core.execution.id(),
        start.reachabilities.last() <= before.reachabilities.last(),
        slots_without(
            before,
            after,
            before.units.records@[unit].slots@,
            before.units.records@[unit].unit.id,
            before.units.records@[unit].unit.version,
            before.core.execution,
        ),
        slots_renewed(
            before,
            after,
            before.units.records@[unit].slots@,
            before.units.records@[unit].unit.id,
            before.units.records@[unit].unit.version,
            before.reachabilities.last(),
        ),
    ensures
        slots_cleared(start, after, units.insert(unit)),
{
    let record = before.units.records@[unit];
    let more = units.insert(unit);
    assert forall|slot: Handle| #[trigger] start.slots@.dom().contains(slot) implies slot_cleared(
        start,
        after.slots@[slot],
        more,
        slot,
    ) by {
        let was = start.slots@[slot];
        let mid = before.slots@[slot];
        let now = after.slots@[slot];
        assert(before.slots@.dom().contains(slot));
        lemma_one_more_leaves(start, units, unit, slot, was.payload.lcq_of());
        lemma_one_more_leaves(start, units, unit, slot, hcq_entry(was.payload));
        if record.slots@.contains(slot) && names_unit(
            mid.payload,
            record.unit.id,
            record.unit.version,
        ) {
            assert(slot_without(
                mid,
                now,
                record.unit.id,
                record.unit.version,
                before.core.execution,
            ));
        } else {
            assert(now == mid);
        }
    }
    assert forall|key: BlockKey| #[trigger]
        after.keys@.dom().contains(key) <==> start.keys@.dom().contains(key) && !(touched(
            start,
            more,
            start.keys@[key],
        ) && after.slots@[start.keys@[key]].payload.preferred_of() is None) by {
        if start.keys@.dom().contains(key) {
            let slot = start.keys@[key];
            assert(start.slots@.dom().contains(slot));
            assert(slot_cleared(start, before.slots@[slot], units, slot));
            assert(slot_cleared(start, after.slots@[slot], more, slot));
            lemma_one_more_leaves(start, units, unit, slot, start.slots@[slot].payload.lcq_of());
            lemma_one_more_leaves(start, units, unit, slot, hcq_entry(start.slots@[slot].payload));
            assert(before.slots@.dom().contains(slot));
        }
        assert(before.keys@.dom().contains(key) ==> before.keys@[key] == start.keys@[key]);
    }
    assert forall|key: BlockKey| #[trigger] after.keys@.dom().contains(key) implies after.keys@[key]
        == start.keys@[key] by {
        assert(before.keys@.dom().contains(key));
    }
}

/// One pin less.
proof fn lemma_lowered_once(count: usize, times: int)
    requires
        0 <= times,
    ensures
        count_down(lowered(count, times)) == lowered(count, times + 1),
        lowered(count, 0) == count,
{
}

proof fn lemma_reliance_counts(start: Lifetime, families: Set<Handle>, unit: Handle)
    requires
        families.finite(),
    ensures
        0 <= total(families, start.reliance_on(unit)),
{
    lemma_total_within(
        Set::empty(),
        start.reliance_on(unit),
        families,
        start.reliance_on(unit),
    );
}

/// One more unit was unlinked, or kept.
pub(crate) proof fn lemma_pins_step(
    start: Lifetime,
    before: Lifetime,
    after: Lifetime,
    units: Set<Handle>,
    unit: Handle,
    unlinked: bool,
)
    requires
        start.wf(),
        same_units(start, before),
        start.units.records@.dom().contains(unit),
        families_ended(start, before, units),
        pins_released(start, before),
        if unlinked {
            family_dissolved(before, after, unit)
        } else {
            &&& after.units.families == before.units.families
            &&& after.units.records@ == before.units.records@.insert(
                unit,
                UnitRecord { retirement: None, ..before.units.records@[unit] },
            )
        },
    ensures
        pins_released(start, after),
{
    start.units.families.lemma_countable();
    let record = before.units.records@[unit];
    let retired = UnitRecord {
        lifecycle: Lifecycle::Retired(before.core.execution),
        retirement: None,
        ..record
    };
    let middle = before.units.records@.insert(unit, retired);
    assert(middle.dom() =~= before.units.records@.dom());
    assert(ended(start, before).finite());
    assert forall|other: Handle| #[trigger] start.units.records@.dom().contains(
        other,
    ) implies after.units.records@[other].pins == lowered(
        start.units.records@[other].pins,
        total(ended(start, after), start.reliance_on(other)),
    ) by {
        assert(middle.dom().contains(other));
        if unlinked && record.family is Some && before.units.families@.dom().contains(
            record.family->0,
        ) {
            let family = record.family->0;
            assert(start.units.families@.dom().contains(family));
            assert(before.units.families@[family] == start.units.families@[family]);
            assert(ended(start, after) =~= ended(start, before).insert(family));
            lemma_total_insert(ended(start, before), start.reliance_on(other), family);
            lemma_reliance_counts(start, ended(start, before), other);
            lemma_lowered_once(
                start.units.records@[other].pins,
                total(ended(start, before), start.reliance_on(other)),
            );
        } else {
            assert(ended(start, after) =~= ended(start, before));
        }
    }
}

/// What two removals leave.
pub(crate) proof fn lemma_cleared_twice(
    start: Lifetime,
    middle: Lifetime,
    last: Lifetime,
    a: Set<Handle>,
    b: Set<Handle>,
)
    requires
        start.wf(),
        middle.wf(),
        same_units(start, middle),
        a.subset_of(start.units.records@.dom()),
        b.subset_of(start.units.records@.dom()),
        slots_cleared(start, middle, a),
        slots_cleared(middle, last, b),
        start.core.execution.id() <= middle.core.execution.id(),
        start.reachabilities.last() <= middle.reachabilities.last(),
    ensures
        slots_cleared(start, last, a.union(b)),
{
    let both = a.union(b);
    assert forall|slot: Handle, entry: Option<PublishedEntry>| #[trigger]
        leaves_slot(start, both, slot, entry) <==> leaves_slot(start, a, slot, entry)
            || leaves_slot(middle, b, slot, entry) by {
        lemma_union_leaves(start, middle, a, b, slot, entry);
    }
    assert forall|slot: Handle| #[trigger] start.slots@.dom().contains(slot) implies slot_cleared(
        start,
        last.slots@[slot],
        both,
        slot,
    ) by {
        assert(middle.slots@.dom().contains(slot));
        let payload = start.slots@[slot].payload;
        let mid = middle.slots@[slot].payload;
        assert(slot_cleared(start, middle.slots@[slot], a, slot));
        assert(slot_cleared(middle, last.slots@[slot], b, slot));
        assert(!leaves_slot(middle, b, slot, None));
        assert(leaves_slot(start, both, slot, payload.lcq_of()) <==> leaves_slot(
            start,
            a,
            slot,
            payload.lcq_of(),
        ) || leaves_slot(middle, b, slot, payload.lcq_of()));
        assert(leaves_slot(start, both, slot, hcq_entry(payload)) <==> leaves_slot(
            start,
            a,
            slot,
            hcq_entry(payload),
        ) || leaves_slot(middle, b, slot, hcq_entry(payload)));
    }
    assert forall|key: BlockKey| #[trigger]
        last.keys@.dom().contains(key) <==> start.keys@.dom().contains(key) && !(touched(
            start,
            both,
            start.keys@[key],
        ) && last.slots@[start.keys@[key]].payload.preferred_of() is None) by {
        assert(middle.keys@.dom().contains(key) ==> middle.keys@[key] == start.keys@[key]);
        if start.keys@.dom().contains(key) {
            let slot = start.keys@[key];
            let payload = start.slots@[slot].payload;
            assert(start.slots@.dom().contains(slot));
            assert(middle.slots@.dom().contains(slot));
            assert(slot_cleared(start, middle.slots@[slot], a, slot));
            assert(slot_cleared(middle, last.slots@[slot], b, slot));
            assert(slot_cleared(start, last.slots@[slot], both, slot));
            assert(!leaves_slot(middle, b, slot, None));
            assert(leaves_slot(start, both, slot, payload.lcq_of()) <==> leaves_slot(
                start,
                a,
                slot,
                payload.lcq_of(),
            ) || leaves_slot(middle, b, slot, payload.lcq_of()));
            assert(leaves_slot(start, both, slot, hcq_entry(payload)) <==> leaves_slot(
                start,
                a,
                slot,
                hcq_entry(payload),
            ) || leaves_slot(middle, b, slot, hcq_entry(payload)));
        }
    }
    assert forall|key: BlockKey| #[trigger] last.keys@.dom().contains(key) implies last.keys@[key]
        == start.keys@[key] by {
        assert(middle.keys@.dom().contains(key));
    }
}

proof fn lemma_union_leaves(
    start: Lifetime,
    middle: Lifetime,
    a: Set<Handle>,
    b: Set<Handle>,
    slot: Handle,
    entry: Option<PublishedEntry>,
)
    requires
        same_units(start, middle),
        b.subset_of(start.units.records@.dom()),
    ensures
        leaves_slot(start, a.union(b), slot, entry) <==> leaves_slot(start, a, slot, entry)
            || leaves_slot(middle, b, slot, entry),
{
    let both = a.union(b);
    if leaves_slot(start, both, slot, entry) {
        let unit = choose|unit: Handle| #[trigger]
            both.contains(unit) && start.units.records@[unit].slots@.contains(slot) && names(
                entry,
                start.units.records@[unit].unit.id,
                start.units.records@[unit].unit.version,
            );
        if !a.contains(unit) {
            assert(b.contains(unit));
            assert(start.units.records@.dom().contains(unit));
        }
    }
    if leaves_slot(start, a, slot, entry) {
        let unit = choose|unit: Handle| #[trigger]
            a.contains(unit) && start.units.records@[unit].slots@.contains(slot) && names(
                entry,
                start.units.records@[unit].unit.id,
                start.units.records@[unit].unit.version,
            );
        assert(both.contains(unit));
    }
    if leaves_slot(middle, b, slot, entry) {
        let unit = choose|unit: Handle| #[trigger]
            b.contains(unit) && middle.units.records@[unit].slots@.contains(slot) && names(
                entry,
                middle.units.records@[unit].unit.id,
                middle.units.records@[unit].unit.version,
            );
        assert(both.contains(unit));
        assert(start.units.records@.dom().contains(unit));
    }
}

/// The pins after two removals.
pub(crate) proof fn lemma_pins_twice(
    start: Lifetime,
    middle: Lifetime,
    last: Lifetime,
    a: Set<Handle>,
    b: Set<Handle>,
)
    requires
        start.wf(),
        same_units(start, middle),
        families_ended(start, middle, a),
        families_ended(middle, last, b),
        pins_released(start, middle),
        pins_released(middle, last),
    ensures
        pins_released(start, last),
{
    start.units.families.lemma_countable();
    let first = ended(start, middle);
    let second = ended(middle, last);
    assert(second.subset_of(start.units.families@.dom())) by {
        assert forall|family: Handle| #[trigger] second.contains(
            family,
        ) implies start.units.families@.dom().contains(family) by {
            assert(middle.units.families@.dom().contains(family));
        }
    }
    vstd::set_lib::lemma_len_subset(first, start.units.families@.dom());
    vstd::set_lib::lemma_len_subset(second, start.units.families@.dom());
    assert(ended(start, last) =~= first.union(second)) by {
        assert forall|family: Handle| #[trigger]
            ended(start, last).contains(family) <==> first.union(second).contains(family) by {
            if last.units.families@.dom().contains(family) {
                assert(middle.units.families@.dom().contains(family));
            }
        }
    }
    assert forall|unit: Handle| #[trigger] start.units.records@.dom().contains(
        unit,
    ) implies last.units.records@[unit].pins == lowered(
        start.units.records@[unit].pins,
        total(ended(start, last), start.reliance_on(unit)),
    ) by {
        assert(middle.units.records@.dom().contains(unit));
        assert forall|family: Handle| #[trigger] second.contains(
            family,
        ) implies start.reliance_on(unit)(family) == middle.reliance_on(unit)(family) by {
            assert(middle.units.families@.dom().contains(family));
        }
        lemma_total_alike(second, start.reliance_on(unit), middle.reliance_on(unit));
        lemma_total_union(first, second, start.reliance_on(unit));
        lemma_reliance_counts(start, first, unit);
        lemma_reliance_counts(start, second, unit);
    }
}

} // verus!
