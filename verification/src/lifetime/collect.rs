//! A round of removal: units that no reader can reach are freed.

use vstd::multiset::Multiset;
use vstd::prelude::*;
use super::coordinator::{exhausted, Error};
use super::detach::{intervals_leave, leaves_directory, lemma_intervals_stay};
use super::directory::Interval;
use super::drain::{retired_since, same_units};
use super::pages::{without_pages, Association};
use super::process::{refunded, Lifecycle, Lifetime, Remains, UnitRecord, Units};
use super::registry::Handle;
use super::sums::{lemma_total_alike, lemma_total_remove, total};
use super::unit::CodeUnit;
use super::units::{
    lemma_refunded_nothing, lemma_units_alike, same_unit,
};
use crate::abi::identity::Identity;
use crate::executable::cache::{Cache, MetadataLease};
use crate::executable::SEGMENTS;

verus! {

/// Code that no reader can reach any more, with what is charged for it.
pub struct ReclaimedUnit {
    pub unit: CodeUnit,
    pub charge: MetadataLease,
    pub table_charge: Option<MetadataLease>,
}

impl ReclaimedUnit {
    /// The code and the charge of its record.
    pub open spec fn remains(&self) -> Remains {
        Remains { code: self.unit, charge: self.charge }
    }

    /// What is charged for the table that left the directory with it.
    pub open spec fn table_bytes(&self) -> int {
        match self.table_charge {
            Some(charge) => charge.bytes as int,
            None => 0,
        }
    }

    /// All that is charged for it.
    pub open spec fn total_charge(&self) -> int {
        self.unit.input.code.charge.bytes + self.charge.bytes + (match self.table_charge {
            Some(charge) => charge.bytes as int,
            None => 0,
        })
    }
}

/// What is charged for all the tables that the units took with them.
pub open spec fn table_charges(reclaimed: Seq<ReclaimedUnit>) -> int
    decreases reclaimed.len(),
{
    if reclaimed.len() == 0 {
        0
    } else {
        table_charges(reclaimed.drop_last()) + reclaimed.last().table_bytes()
    }
}

/// The charge of the table that the unit took with it.
pub open spec fn taken_table(record: UnitRecord) -> Option<MetadataLease> {
    match record.detached_table {
        Some(table) => Some(table.charge),
        None => None,
    }
}

/// The index of pages without those of the units.
pub open spec fn pages_without(
    index: Multiset<Association>,
    records: Map<Handle, UnitRecord>,
    units: Seq<Handle>,
) -> Multiset<Association>
    decreases units.len(),
{
    if units.len() == 0 {
        index
    } else {
        let unit = units.last();
        let pages = records[unit].unit.input.dependencies@;
        without_pages(
            pages_without(index, records, units.drop_last()),
            pages,
            unit,
            pages.len() as int,
        )
    }
}

proof fn lemma_pages_alike(
    index: Multiset<Association>,
    a: Map<Handle, UnitRecord>,
    b: Map<Handle, UnitRecord>,
    units: Seq<Handle>,
)
    requires
        forall|k: int| 0 <= k < units.len() ==> a[#[trigger] units[k]].unit == b[units[k]].unit,
    ensures
        pages_without(index, a, units) == pages_without(index, b, units),
    decreases units.len(),
{
    if units.len() != 0 {
        assert(a[units[units.len() - 1]].unit == b[units[units.len() - 1]].unit);
        lemma_pages_alike(index, a, b, units.drop_last());
    }
}

impl Lifetime {
    /// The unit left the directory so long ago that no reader can be looking at
    /// it, and nothing else keeps it.
    pub open spec fn reclaimable(&self, unit: Handle) -> bool {
        &&& self.units.records@.dom().contains(unit)
        &&& self.units.records@[unit].detached matches Some(epoch)
        &&& self.quiescent_at(epoch.id())
        &&& self.unreferenced(unit)
    }

    fn can_reclaim(&self, unit: Handle) -> (r: bool)
        ensures
            r == self.reclaimable(unit),
    {
        match self.units.records.get(unit) {
            Some(record) => match record.detached {
                Some(epoch) => record.snapshots == 0 && record.pins == 0 && self.quiescent(epoch),
                None => false,
            },
            None => false,
        }
    }

    /// Forgets a unit and its pages.
    fn remove_unit(&mut self, unit: Handle) -> (r: ReclaimedUnit)
        requires
            old(self).wf(),
            old(self).reclaimable(unit),
        ensures
            final(self).wf(),
            r.remains() == old(self).units.records@[unit].remains(),
            r.table_charge == taken_table(old(self).units.records@[unit]),
            final(self).units.dependencies@ == without_pages(
                old(self).units.dependencies@,
                old(self).units.records@[unit].unit.input.dependencies@,
                unit,
                old(self).units.records@[unit].unit.input.dependencies@.len() as int,
            ),
            final(self).table_load() == old(self).table_load() - r.table_bytes(),
            final(self).units.records@ == old(self).units.records@.remove(unit),
            final(self).units.families@ == old(self).units.families@,
            *final(self) == (Lifetime {
                units: Units {
                    records: final(self).units.records,
                    families: final(self).units.families,
                    dependencies: final(self).units.dependencies,
                    ..old(self).units
                },
                ..*old(self)
            }),
    {
        let record = self.units.records.remove(unit).unwrap();
        proof {
            lemma_record_removed(*old(self), *self, unit);
        }
        let ghost removed = *self;
        if let Some(family) = record.family {
            self.units.families.release_held(family);
        }
        let mut k: usize = 0;
        while k < record.unit.input.dependencies.len()
            invariant
                k <= record.unit.input.dependencies@.len(),
                *self == (Lifetime {
                    units: Units {
                        families: self.units.families,
                        dependencies: self.units.dependencies,
                        ..removed.units
                    },
                    ..removed
                }),
                self.units.families@ == removed.units.families@,
                self.units.families.wf(),
                self.units.dependencies@ == without_pages(
                    old(self).units.dependencies@,
                    record.unit.input.dependencies@,
                    unit,
                    k as int,
                ),
            decreases record.unit.input.dependencies@.len() - k,
        {
            self.units.dependencies.remove(record.unit.input.dependencies[k], unit);
            k = k + 1;
        }
        proof {
            lemma_units_alike(removed, *self);
        }
        let table_charge = match record.detached_table {
            Some(table) => Some(table.charge),
            None => None,
        };
        proof {
            old(self).units.records.lemma_countable();
            let dom = old(self).units.records@.dom();
            lemma_total_remove(dom, old(self).detached_charge(), unit);
            lemma_total_alike(dom.remove(unit), old(self).detached_charge(), self.detached_charge());
            assert(self.units.records@.dom() =~= dom.remove(unit));
        }
        ReclaimedUnit { unit: record.unit, charge: record.charge, table_charge }
    }
}

proof fn lemma_record_removed(before: Lifetime, after: Lifetime, unit: Handle)
    requires
        before.wf(),
        before.units.records@.dom().contains(unit),
        before.units.records@[unit].detached is Some,
        after.units.records.wf(),
        after.units.records@ == before.units.records@.remove(unit),
        after == (Lifetime {
            units: Units { records: after.units.records, ..before.units },
            ..before
        }),
    ensures
        after.wf(),
{
    assert forall|s: int| 0 <= s < SEGMENTS implies #[trigger] after.units.attributes(s) by {
        assert(before.units.attributes(s));
        if after.units.tables@[s] is Some {
            let current = after.units.tables@[s]->0;
            assert forall|k: int| 0 <= k < current.intervals@.len() implies after.units.names_access(
                #[trigger] current.intervals@[k],
                s,
            ) by {
                assert(before.units.names_access(current.intervals@[k], s));
            }
        }
    }
    assert forall|other: Handle, i: int|
        #![trigger after.units.records@[other].slots@[i]]
        after.units.records@.dom().contains(other) && 0 <= i
            < after.units.records@[other].slots@.len() implies after.slots@.dom().contains(
        after.units.records@[other].slots@[i],
    ) by {
        assert(before.slots@.dom().contains(before.units.records@[other].slots@[i]));
    }
}

/// What removal may do to a unit before it is freed: retire it where nothing
/// needs it, and take it out of the directory.
pub open spec fn on_its_way(before: Lifetime, after: Lifetime, unit: Handle) -> bool {
    let old_record = before.units.records@[unit];
    let record = after.units.records@[unit];
    &&& same_unit(record, old_record)
    &&& record.snapshots == old_record.snapshots
    &&& record.pins == old_record.pins
    &&& record.family == old_record.family
    &&& record.retirement == old_record.retirement
    &&& record.lifecycle == old_record.lifecycle || before.rootless(unit)
        && record.lifecycle is Retired
    &&& record.detached == old_record.detached || before.removable(unit)
    &&& old_record.detached is Some ==> record.detached == old_record.detached
        && record.detached_table == old_record.detached_table
}

impl Lifetime {
    pub open spec fn removable_units(&self) -> Set<Handle> {
        Set::new(|unit: Handle| self.removable(unit))
    }

    /// The unit was retired before every reader that is inside, or is replaced
    /// code that nothing needs; and nothing keeps it.
    pub open spec fn removable(&self, unit: Handle) -> bool {
        &&& self.units.records@.dom().contains(unit)
        &&& self.unreferenced(unit)
        &&& {
            ||| self.rootless(unit)
            ||| self.units.records@[unit].lifecycle matches Lifecycle::Retired(epoch)
                && self.quiescent_at(epoch.id())
            ||| self.units.records@[unit].detached is Some
        }
    }

    /// Exactly what is left of the units that can be freed, each once.
    #[verifier::opaque]
    pub open spec fn frees_all(&self, reclaimed: Seq<ReclaimedUnit>, units: Seq<Handle>) -> bool {
        &&& units.len() == reclaimed.len()
        &&& units.no_duplicates()
        &&& forall|k: int|
            0 <= k < units.len() ==> {
                &&& self.reclaimable(#[trigger] units[k])
                &&& reclaimed[k].remains() == self.units.records@[units[k]].remains()
                &&& reclaimed[k].table_charge == taken_table(self.units.records@[units[k]])
            }
        &&& forall|unit: Handle| #[trigger] self.reclaimable(unit) ==> units.contains(unit)
    }

    /// Frees every unit that can be freed.
    fn reclaim_pass(&mut self) -> (r: Vec<ReclaimedUnit>)
        requires
            old(self).wf(),
        ensures
            final(self).wf(),
            final(self).slots == old(self).slots,
            final(self).keys == old(self).keys,
            final(self).readers == old(self).readers,
            final(self).core == old(self).core,
            final(self).identity == old(self).identity,
            final(self).cache_identity == old(self).cache_identity,
            final(self).cache == old(self).cache,
            final(self).units.tables == old(self).units.tables,
            final(self).units.borrowers == old(self).units.borrowers,
            final(self).units.retired_tables == old(self).units.retired_tables,
            final(self).units.families@ == old(self).units.families@,
            *final(self) == (Lifetime {
                units: Units {
                    records: final(self).units.records,
                    families: final(self).units.families,
                    dependencies: final(self).units.dependencies,
                    ..old(self).units
                },
                ..*old(self)
            }),
            forall|unit: Handle| #[trigger]
                final(self).units.records@.dom().contains(unit) <==> old(
                    self,
                ).units.records@.dom().contains(unit) && !old(self).reclaimable(unit),
            forall|unit: Handle| #[trigger]
                final(self).units.records@.dom().contains(unit) ==> final(
                    self
                ).units.records@[unit] == old(self).units.records@[unit],
            final(self).table_load() + table_charges(r@) == old(self).table_load(),
            exists|units: Seq<Handle>| #[trigger]
                old(self).frees_all(r@, units) && final(self).units.dependencies@ == pages_without(
                    old(self).units.dependencies@,
                    old(self).units.records@,
                    units,
                ),
    {
        let handles = self.units.records.handles();
        let mut r: Vec<ReclaimedUnit> = Vec::new();
        let ghost mut freed: Seq<Handle> = Seq::empty();
        let mut k: usize = 0;
        while k < handles.len()
            invariant
                k <= handles@.len(),
                old(self).wf(),
                self.wf(),
                self.slots == old(self).slots,
                self.keys == old(self).keys,
                self.readers == old(self).readers,
                self.core == old(self).core,
                self.identity == old(self).identity,
                self.cache_identity == old(self).cache_identity,
                self.cache == old(self).cache,
                self.units.tables == old(self).units.tables,
                self.units.borrowers == old(self).units.borrowers,
                self.units.families@ == old(self).units.families@,
                *self == (Lifetime {
                    units: Units {
                        records: self.units.records,
                        families: self.units.families,
                        dependencies: self.units.dependencies,
                        ..old(self).units
                    },
                    ..*old(self)
                }),
                self.units.retired_tables == old(self).units.retired_tables,
                forall|h: Handle| #[trigger]
                    old(self).units.records@.dom().contains(h) ==> handles@.contains(h),
                forall|j: int|
                    0 <= j < handles@.len() ==> old(self).units.records@.dom().contains(
                        #[trigger] handles@[j],
                    ),
                forall|i: int, j: int|
                    0 <= i < j < handles@.len() ==> (#[trigger] handles@[i]).index < (
                    #[trigger] handles@[j]).index,
                forall|unit: Handle| #[trigger]
                    self.units.records@.dom().contains(unit) ==> old(
                        self,
                    ).units.records@.dom().contains(unit) && self.units.records@[unit] == old(
                        self,
                    ).units.records@[unit],
                forall|j: int|
                    0 <= j < k ==> (self.units.records@.dom().contains(#[trigger] handles@[j])
                        <==> !old(self).reclaimable(handles@[j])),
                forall|j: int|
                    k <= j < handles@.len() ==> self.units.records@.dom().contains(
                        #[trigger] handles@[j],
                    ),
                self.table_load() + table_charges(r@) == old(self).table_load(),
                self.units.dependencies@ == pages_without(
                    old(self).units.dependencies@,
                    old(self).units.records@,
                    freed,
                ),
                freed.len() == r@.len(),
                freed.no_duplicates(),
                forall|i: int|
                    0 <= i < freed.len() ==> {
                        &&& old(self).reclaimable(#[trigger] freed[i])
                        &&& !self.units.records@.dom().contains(freed[i])
                        &&& r@[i].remains() == old(self).units.records@[freed[i]].remains()
                        &&& r@[i].table_charge == taken_table(old(self).units.records@[freed[i]])
                    },
                forall|j: int|
                    0 <= j < k && old(self).reclaimable(#[trigger] handles@[j]) ==> freed.contains(
                        handles@[j],
                    ),
            decreases handles@.len() - k,
        {
            let unit = handles[k];
            let ghost before = *self;
            let ghost taken = r@;
            let ghost earlier = freed;
            assert(old(self).units.records@.dom().contains(handles@[k as int]));
            assert(self.units.records@.dom().contains(handles@[k as int]));
            proof {
                let record = self.units.records@[unit];
                if record.detached is Some {
                    assert(self.quiescent_at(record.detached->0.id()) == old(self).quiescent_at(
                        record.detached->0.id(),
                    ));
                }
                assert(self.reclaimable(unit) == old(self).reclaimable(unit));
            }
            if self.can_reclaim(unit) {
                let reclaimed = self.remove_unit(unit);
                r.push(reclaimed);
                proof {
                    freed = earlier.push(unit);
                    assert(freed.drop_last() =~= earlier);
                    assert(r@.drop_last() =~= taken);
                    assert forall|i: int| 0 <= i < freed.len() implies {
                        &&& old(self).reclaimable(#[trigger] freed[i])
                        &&& !self.units.records@.dom().contains(freed[i])
                        &&& r@[i].remains() == old(self).units.records@[freed[i]].remains()
                        &&& r@[i].table_charge == taken_table(old(self).units.records@[freed[i]])
                    } by {
                        if i < earlier.len() {
                            assert(freed[i] == earlier[i]);
                            assert(r@[i] == taken[i]);
                        }
                    }
                    assert(freed.no_duplicates()) by {
                        assert(!earlier.contains(unit));
                    }
                    assert forall|j: int|
                        0 <= j < k + 1 && old(self).reclaimable(
                            #[trigger] handles@[j],
                        ) implies freed.contains(handles@[j]) by {
                        if j < k {
                            let i = choose|i: int| 0 <= i < earlier.len() && earlier[i] == handles@[j];
                            assert(freed[i] == handles@[j]);
                        } else {
                            assert(freed[earlier.len() as int] == unit);
                        }
                    }
                }
            }
            proof {
                assert forall|j: int| 0 <= j < handles@.len() && j != k implies (
                self.units.records@.dom().contains(#[trigger] handles@[j])
                    <==> before.units.records@.dom().contains(handles@[j])) by {
                    if j < k {
                        assert(handles@[j].index < handles@[k as int].index);
                    } else {
                        assert(handles@[k as int].index < handles@[j].index);
                    }
                }
            }
            k = k + 1;
        }
        proof {
            assert forall|unit: Handle| #[trigger] old(self).units.records@.dom().contains(
                unit,
            ) implies (self.units.records@.dom().contains(unit) <==> !old(self).reclaimable(
                unit,
            )) && (old(self).reclaimable(unit) ==> freed.contains(unit)) by {
                let j = choose|j: int| 0 <= j < handles@.len() && handles@[j] == unit;
                assert(handles@[j] == unit);
            }
            assert(old(self).frees_all(r@, freed)) by {
                reveal(Lifetime::frees_all);
                assert forall|unit: Handle| #[trigger] old(self).reclaimable(
                    unit,
                ) implies freed.contains(unit) by {
                    assert(old(self).units.records@.dom().contains(unit));
                }
            }
        }
        r
    }
}

/// The unit with this code and charge is gone. A table that it had taken out of the
/// directory before goes with it.
pub open spec fn removed_with(
    before: Lifetime,
    after: Lifetime,
    unit: Handle,
    reclaimed: ReclaimedUnit,
) -> bool {
    &&& before.units.records@.dom().contains(unit)
    &&& !after.units.records@.dom().contains(unit)
    &&& before.units.records@[unit].remains() == reclaimed.remains()
    &&& before.units.records@[unit].detached is Some ==> reclaimed.table_charge == taken_table(
        before.units.records@[unit],
    )
}

/// The units are exactly those that are gone, each once, and their pages with them.
#[verifier::opaque]
pub open spec fn hands_back(
    before: Lifetime,
    after: Lifetime,
    reclaimed: Seq<ReclaimedUnit>,
    units: Seq<Handle>,
) -> bool {
    &&& units.len() == reclaimed.len()
    &&& units.no_duplicates()
    &&& forall|k: int|
        0 <= k < units.len() ==> removed_with(before, after, #[trigger] units[k], reclaimed[k])
    &&& forall|unit: Handle| #[trigger]
        before.units.records@.dom().contains(unit) && !after.units.records@.dom().contains(unit)
            ==> units.contains(unit)
    &&& after.units.dependencies@ == pages_without(
        before.units.dependencies@,
        before.units.records@,
        units,
    )
}

/// Exactly the code of the units that are gone, with what was charged for them.
pub open spec fn handed_back(before: Lifetime, after: Lifetime, reclaimed: Seq<ReclaimedUnit>) -> bool {
    exists|units: Seq<Handle>| #[trigger] hands_back(before, after, reclaimed, units)
}

proof fn lemma_handed_back(
    before: Lifetime,
    detached: Lifetime,
    after: Lifetime,
    reclaimed: Seq<ReclaimedUnit>,
    units: Seq<Handle>,
)
    requires
        detached.units.records@.dom() == before.units.records@.dom(),
        forall|unit: Handle| #[trigger]
            detached.units.records@.dom().contains(unit) ==> on_its_way(before, detached, unit),
        forall|unit: Handle| #[trigger]
            after.units.records@.dom().contains(unit) <==> detached.units.records@.dom().contains(
                unit,
            ) && !detached.reclaimable(unit),
        detached.units.dependencies == before.units.dependencies,
        detached.frees_all(reclaimed, units),
        after.units.dependencies@ == pages_without(
            detached.units.dependencies@,
            detached.units.records@,
            units,
        ),
    ensures
        handed_back(before, after, reclaimed),
{
    reveal(Lifetime::frees_all);
    reveal(hands_back);
    assert forall|k: int| 0 <= k < units.len() implies removed_with(
        before,
        after,
        #[trigger] units[k],
        reclaimed[k],
    ) by {
        assert(detached.reclaimable(units[k]));
        assert(detached.units.records@.dom().contains(units[k]));
        assert(on_its_way(before, detached, units[k]));
    }
    assert forall|unit: Handle| #[trigger] before.units.records@.dom().contains(unit)
        && !after.units.records@.dom().contains(unit) implies units.contains(unit) by {
        assert(detached.units.records@.dom().contains(unit));
        assert(detached.reclaimable(unit));
    }
    assert forall|k: int| 0 <= k < units.len() implies before.units.records@[
        #[trigger] units[k]
    ].unit == detached.units.records@[units[k]].unit by {
        assert(detached.reclaimable(units[k]));
        assert(detached.units.records@.dom().contains(units[k]));
        assert(on_its_way(before, detached, units[k]));
    }
    lemma_pages_alike(
        before.units.dependencies@,
        before.units.records@,
        detached.units.records@,
        units,
    );
    assert(hands_back(before, after, reclaimed, units));
}

pub(crate) proof fn lemma_handed_back_later(
    first: Lifetime,
    second: Lifetime,
    after: Lifetime,
    reclaimed: Seq<ReclaimedUnit>,
)
    requires
        same_units(first, second),
        first.units.dependencies == second.units.dependencies,
        handed_back(second, after, reclaimed),
    ensures
        handed_back(first, after, reclaimed),
{
    reveal(hands_back);
    let units = choose|units: Seq<Handle>| #[trigger] hands_back(second, after, reclaimed, units);
    assert forall|k: int| 0 <= k < units.len() implies removed_with(
        first,
        after,
        #[trigger] units[k],
        reclaimed[k],
    ) && first.units.records@[units[k]].unit == second.units.records@[units[k]].unit by {
        assert(removed_with(second, after, units[k], reclaimed[k]));
        assert(first.units.records@.dom().contains(units[k]));
    }
    assert forall|unit: Handle| #[trigger] first.units.records@.dom().contains(unit)
        && !after.units.records@.dom().contains(unit) implies units.contains(unit) by {
        assert(second.units.records@.dom().contains(unit));
    }
    lemma_pages_alike(
        first.units.dependencies@,
        first.units.records@,
        second.units.records@,
        units,
    );
    assert(hands_back(first, after, reclaimed, units));
}

pub(crate) proof fn lemma_removal_bounded(process: Lifetime)
    requires
        process.units.records.wf(),
    ensures
        process.rootless_units().finite(),
        process.removable_units().finite(),
        process.rootless_units().len() + process.removable_units().len() <= 2
            * process.units.records@.dom().len(),
{
    process.units.records.lemma_countable();
    vstd::set_lib::lemma_len_subset(process.rootless_units(), process.units.records@.dom());
    vstd::set_lib::lemma_len_subset(process.removable_units(), process.units.records@.dom());
}

proof fn lemma_rootless_alike(a: Lifetime, b: Lifetime)
    requires
        a.units.records == b.units.records,
        a.slots == b.slots,
    ensures
        forall|unit: Handle| #[trigger] a.rootless(unit) == b.rootless(unit),
{
    assert forall|unit: Handle| #[trigger] a.rootless(unit) == b.rootless(unit) by {
        assert(a.rooted(a.units.records@[unit]) == b.rooted(b.units.records@[unit]));
    }
}

/// A unit that can leave once replaced code is retired could be removed before.
proof fn lemma_leaving_removable(start: Lifetime, collected: Lifetime, retired: Lifetime)
    requires
        collected.units.records == start.units.records,
        collected.slots == start.slots,
        collected.readers == start.readers,
        retired.readers == start.readers,
        retired.units.records@.dom() == collected.units.records@.dom(),
        forall|unit: Handle| #[trigger]
            collected.units.records@.dom().contains(unit) ==> retired.units.records@[unit]
                == collected.units.records@[unit] || collected.rootless(unit) && retired_since(
                collected.units.records@[unit],
                retired.units.records@[unit],
                collected.core.execution,
            ),
    ensures
        forall|unit: Handle| #[trigger] retired.detachable(unit) ==> start.removable(unit),
{
    lemma_rootless_alike(start, collected);
    assert forall|unit: Handle| #[trigger] retired.detachable(unit) implies start.removable(
        unit,
    ) by {
        assert(collected.units.records@.dom().contains(unit));
        if !collected.rootless(unit) {
            let epoch = match start.units.records@[unit].lifecycle {
                Lifecycle::Retired(epoch) => epoch,
                _ => arbitrary(),
            };
            assert(start.quiescent_at(epoch.id()) == retired.quiescent_at(epoch.id()));
        } else {
            assert(start.rootless(unit));
        }
    }
}

proof fn lemma_load_alike(a: Lifetime, b: Lifetime)
    requires
        a.units.records.wf(),
        a.units.records == b.units.records,
        a.units.tables == b.units.tables,
    ensures
        a.table_load() == b.table_load(),
{
    a.units.records.lemma_countable();
    lemma_total_alike(a.units.records@.dom(), a.detached_charge(), b.detached_charge());
}

proof fn lemma_retired_load(a: Lifetime, b: Lifetime)
    requires
        a.units.records.wf(),
        a.units.records@.dom() == b.units.records@.dom(),
        a.units.tables == b.units.tables,
        forall|unit: Handle| #[trigger]
            a.units.records@.dom().contains(unit) ==> b.units.records@[unit]
                == a.units.records@[unit] || retired_since(
                a.units.records@[unit],
                b.units.records@[unit],
                a.core.execution,
            ),
    ensures
        a.table_load() == b.table_load(),
{
    a.units.records.lemma_countable();
    lemma_total_alike(a.units.records@.dom(), a.detached_charge(), b.detached_charge());
}

proof fn lemma_all_freed(start: Lifetime, detached: Lifetime, after: Lifetime)
    requires
        detached.units.records@.dom() == start.units.records@.dom(),
        forall|unit: Handle| #[trigger]
            start.units.records@.dom().contains(unit) ==> on_its_way(start, detached, unit),
        detached.readers == start.readers,
        after.readers == start.readers,
        forall|unit: Handle| #[trigger]
            after.units.records@.dom().contains(unit) <==> detached.units.records@.dom().contains(
                unit,
            ) && !detached.reclaimable(unit),
        forall|unit: Handle| #[trigger]
            after.units.records@.dom().contains(unit) ==> after.units.records@[unit]
                == detached.units.records@[unit],
    ensures
        forall|unit: Handle| !#[trigger] after.reclaimable(unit),
        forall|unit: Handle| #[trigger]
            start.reclaimable(unit) ==> !after.units.records@.dom().contains(unit),
{
    assert forall|unit: Handle| !#[trigger] after.reclaimable(unit) by {
        if after.reclaimable(unit) {
            assert(after.units.records@.dom().contains(unit));
            let epoch = after.units.records@[unit].detached->0;
            assert(after.quiescent_at(epoch.id()) == detached.quiescent_at(epoch.id()));
            assert(detached.reclaimable(unit));
        }
    }
    assert forall|unit: Handle| #[trigger]
        start.reclaimable(unit) implies !after.units.records@.dom().contains(unit) by {
        assert(start.units.records@.dom().contains(unit));
        assert(on_its_way(start, detached, unit));
        let epoch = start.units.records@[unit].detached->0;
        assert(start.quiescent_at(epoch.id()) == detached.quiescent_at(epoch.id()));
        assert(detached.reclaimable(unit));
    }
}

/// What could not leave for want of memory is still there.
proof fn lemma_swept_later(detached: Lifetime, after: Lifetime, cache: Cache)
    requires
        detached.swept(cache),
        after.readers == detached.readers,
        after.core.phase == detached.core.phase,
        after.units.tables == detached.units.tables,
        after.units.borrowers == detached.units.borrowers,
        forall|unit: Handle| #[trigger]
            after.units.records@.dom().contains(unit) <==> detached.units.records@.dom().contains(
                unit,
            ) && !detached.reclaimable(unit),
        forall|unit: Handle| #[trigger]
            after.units.records@.dom().contains(unit) ==> after.units.records@[unit]
                == detached.units.records@[unit],
    ensures
        after.swept(cache),
{
    assert(after.idle_now() == detached.idle_now());
    if forall|unit: Handle| !#[trigger] detached.detachable(unit) {
        assert forall|unit: Handle| !#[trigger] after.detachable(unit) by {
            if after.detachable(unit) {
                assert(after.units.records@.dom().contains(unit));
                let epoch = match after.units.records@[unit].lifecycle {
                    Lifecycle::Retired(epoch) => epoch,
                    _ => arbitrary(),
                };
                assert(after.quiescent_at(epoch.id()) == detached.quiescent_at(epoch.id()));
                assert(detached.detachable(unit));
            }
        }
    } else {
        let unit = choose|unit: Handle| #[trigger] detached.no_room_to_leave(unit, cache);
        assert(detached.units.records@.dom().contains(unit));
        assert(after.units.records@.dom().contains(unit));
        let epoch = match after.units.records@[unit].lifecycle {
            Lifecycle::Retired(epoch) => epoch,
            _ => arbitrary(),
        };
        assert(after.quiescent_at(epoch.id()) == detached.quiescent_at(epoch.id()));
        assert(after.rest_without(unit) == detached.rest_without(unit));
        assert(after.no_room_to_leave(unit, cache));
    }
}

impl Lifetime {
    /// What is charged for tables now and for those that are handed back, beyond
    /// what was charged before.
    pub open spec fn tables_charged(&self, after: Lifetime, reclaimed: Seq<ReclaimedUnit>) -> int {
        after.table_load() + table_charges(reclaimed) - self.table_load()
    }

    /// One round of removal. It retires replaced code that nothing needs, takes
    /// retired units out of the directory, and hands back the code that no reader
    /// can reach.
    pub fn reclaim_units(&mut self) -> (r: Result<Vec<ReclaimedUnit>, Error>)
        requires
            old(self).wf(),
        ensures
            final(self).wf(),
            *final(self) == (Lifetime {
                core: final(self).core,
                slots: final(self).slots,
                cache: final(self).cache,
                units: Units {
                    records: final(self).units.records,
                    families: final(self).units.families,
                    tables: final(self).units.tables,
                    borrowers: final(self).units.borrowers,
                    retired_tables: final(self).units.retired_tables,
                    dependencies: final(self).units.dependencies,
                    ..old(self).units
                },
                ..*old(self)
            }),
            final(self).units.families@ == old(self).units.families@,
            // Faults of the units that stay are still attributed.
            forall|segment: int, x: Interval|
                0 <= segment < SEGMENTS ==> (#[trigger] final(self).intervals_at(segment).contains(
                    x,
                ) <==> old(self).intervals_at(segment).contains(x)
                    && final(self).units.records@.dom().contains(x.unit)
                    && final(self).units.records@[x.unit].detached is None),
            // Nothing that a snapshot, a promise or a reader keeps is removed.
            forall|unit: Handle| #[trigger]
                old(self).units.records@.dom().contains(unit)
                    && !final(self).units.records@.dom().contains(unit) ==> old(self).removable(
                    unit,
                ),
            forall|unit: Handle| #[trigger]
                final(self).units.records@.dom().contains(unit) ==> old(
                    self,
                ).units.records@.dom().contains(unit) && on_its_way(
                    *old(self),
                    *final(self),
                    unit,
                ),
            match r {
                Ok(reclaimed) => {
                    &&& old(self).core.failure is None
                    &&& final(self).core == old(self).core.at_epoch(final(self).core)
                    // What is handed back is the code of the units that are gone.
                    &&& handed_back(*old(self), *final(self), reclaimed@)
                    // Every unit that could be freed is gone.
                    &&& forall|unit: Handle| !#[trigger] final(self).reclaimable(unit)
                    &&& forall|unit: Handle| #[trigger]
                        old(self).reclaimable(unit) ==> !final(self).units.records@.dom().contains(
                            unit,
                        )
                    // Units leave the directory until memory for a new table is refused.
                    &&& old(self).tables_charged(*final(self), reclaimed@) >= 0
                    &&& final(self).swept(
                        old(self).collected_cache().charged(
                            old(self).tables_charged(*final(self), reclaimed@),
                        ),
                    )
                    // Slots that nothing names any more go, and return their charges.
                    &&& old(self).slots_collected(*final(self))
                    &&& final(self).cache == refunded(
                        old(self).collected_cache().charged(
                            old(self).tables_charged(*final(self), reclaimed@),
                        ),
                        total(
                            old(self).slots@.dom().difference(final(self).slots@.dom()),
                            old(self).slot_charge(),
                        ),
                    )
                    // In a stop every retired unit that nothing keeps is gone.
                    &&& old(self).still() ==> forall|unit: Handle| #[trigger]
                        final(self).units.records@.dom().contains(unit) ==> !(final(
                            self
                        ).units.records@[unit].lifecycle is Retired && final(self).unreferenced(
                            unit,
                        ))
                },
                Err(error) => {
                    ||| old(self).core.failure == Some(error)
                    ||| {
                        &&& old(self).cache_stops(error)
                        &&& exists|unit: Handle| #[trigger]
                            final(self).detachable(unit) && final(self).needs_table(unit)
                    }
                    ||| {
                        &&& exhausted(error, "ExecutionEpoch"@)
                        &&& final(self).core == old(self).core.at_epoch(
                            final(self).core,
                        ).failed_with(error)
                        &&& old(self).core.executions.last() + old(self).rootless_units().len()
                            + old(self).removable_units().len() > u64::MAX
                    }
                },
            },
    {
        let result = self.collect_tables();
        let ghost collected = *self;
        proof {
            lemma_intervals_stay(collected);
            lemma_attributed(*old(self), collected, collected);
        }
        result?;
        proof {
            lemma_refunded_nothing(self.cache);
            lemma_removal_bounded(*old(self));
            assert(collected.rootless_units() =~= old(self).rootless_units()) by {
                lemma_rootless_alike(*old(self), collected);
            }
        }
        let result = self.retire_rootless();
        let ghost retired = *self;
        proof {
            lemma_way(*old(self), collected, retired, retired);
            lemma_intervals_stay(retired);
            lemma_attributed(*old(self), retired, retired);
            assert(retired.leaving().subset_of(old(self).removable_units())) by {
                lemma_leaving_removable(*old(self), collected, retired);
            }
            vstd::set_lib::lemma_len_subset(retired.leaving(), old(self).removable_units());
            lemma_retired_load(collected, retired);
            lemma_load_alike(*old(self), collected);
        }
        result?;
        let result = self.detach_pass();
        let ghost detached = *self;
        proof {
            lemma_way(*old(self), collected, retired, detached);
            lemma_attributed(*old(self), retired, detached);
        }
        result?;
        let reclaimed = self.reclaim_pass();
        let ghost freed = *self;
        let ghost units = choose|units: Seq<Handle>| #[trigger]
            detached.frees_all(reclaimed@, units) && freed.units.dependencies@ == pages_without(
                detached.units.dependencies@,
                detached.units.records@,
                units,
            );
        proof {
            assert forall|unit: Handle| #[trigger] detached.units.records@.dom().contains(
                unit,
            ) && detached.reclaimable(unit) implies old(self).removable(unit) by {
                assert(on_its_way(*old(self), detached, unit));
            }
            if old(self).still() {
                assert(retired.still());
                assert forall|unit: Handle| #[trigger] freed.units.records@.dom().contains(
                    unit,
                ) implies !(freed.units.records@[unit].lifecycle is Retired && freed.unreferenced(
                    unit,
                )) by {
                    assert(detached.units.records@.dom().contains(unit));
                    assert(!detached.reclaimable(unit));
                    assert(!detached.detachable(unit));
                    if detached.units.records@[unit].lifecycle is Retired
                        && detached.unreferenced(unit) {
                        assert(detached.idle_now());
                    }
                }
            }
        }
        self.collect_tables()?;
        let ghost tabled = *self;
        self.collect_dispatch()?;
        proof {
            assert forall|unit: Handle| #[trigger] self.units.records@.dom().contains(
                unit,
            ) implies on_its_way(*old(self), *self, unit) by {
                assert(detached.units.records@.dom().contains(unit));
                assert(on_its_way(*old(self), detached, unit));
            }
            lemma_handed_back(*old(self), detached, *self, reclaimed@, units);
            assert forall|segment: int, x: Interval|
                0 <= segment < SEGMENTS implies (#[trigger] self.intervals_at(segment).contains(x)
                <==> old(self).intervals_at(segment).contains(x)
                && self.units.records@.dom().contains(x.unit)
                && self.units.records@[x.unit].detached is None) by {
                assert(self.intervals_at(segment) == detached.intervals_at(segment));
                assert(detached.intervals_at(segment).contains(x) <==> old(self).intervals_at(
                    segment,
                ).contains(x) && detached.units.records@.dom().contains(x.unit)
                    && detached.units.records@[x.unit].detached is None);
                if self.units.records@.dom().contains(x.unit) {
                    assert(freed.units.records@.dom().contains(x.unit));
                    assert(detached.units.records@.dom().contains(x.unit));
                }
                if detached.units.records@.dom().contains(x.unit)
                    && detached.units.records@[x.unit].detached is None {
                    assert(!detached.reclaimable(x.unit));
                    assert(freed.units.records@.dom().contains(x.unit));
                }
            }
            lemma_load_alike(freed, *self);
            lemma_all_freed(*old(self), detached, *self);
            lemma_swept_later(detached, *self, detached.cache);
            assert forall|k: int|
                0 <= k < freed.units.retired_tables@.len() implies !freed.quiescent_at(
                (#[trigger] freed.units.retired_tables@[k]).epoch.id(),
            ) by {
                let epoch = freed.units.retired_tables@[k].epoch.id();
                assert(freed.quiescent_at(epoch) == old(self).quiescent_at(epoch));
                assert(collected.units.retired_tables@[k] == freed.units.retired_tables@[k]);
            }
            freed.lemma_nothing_idle(freed.units.retired_tables@);
            lemma_refunded_nothing(freed.cache);
            assert(tabled.cache == detached.cache);
            assert(self.slots@.submap_of(old(self).slots@));
            assert(old(self).slots_collected(*self)) by {
                assert forall|slot: Handle| #[trigger] tabled.named(slot) == self.named(slot) by {}
                assert(tabled.collectable_slots() =~= Set::new(
                    |slot: Handle|
                        old(self).slots@.dom().contains(slot) && (
                        old(self).slots@[slot].retired matches Some(epoch) && old(
                            self,
                        ).quiescent_at(epoch.id())) && !self.named(slot),
                ));
            }
            assert(old(self).slots@.dom().difference(self.slots@.dom())
                =~= tabled.collectable_slots());
            assert(tabled.slot_charge() == old(self).slot_charge());
        }
        Ok(reclaimed)
    }
}

/// Intervals whose unit stays are those that the tables still hold.
proof fn lemma_attributed(start: Lifetime, retired: Lifetime, detached: Lifetime)
    requires
        start.wf(),
        retired.wf(),
        detached.wf(),
        retired.units.tables == start.units.tables,
        intervals_leave(retired, detached),
    ensures
        forall|segment: int, x: Interval|
            0 <= segment < SEGMENTS ==> (#[trigger] detached.intervals_at(segment).contains(x)
                <==> start.intervals_at(segment).contains(x)
                && detached.units.records@.dom().contains(x.unit)
                && detached.units.records@[x.unit].detached is None),
{
    lemma_intervals_stay(detached);
    assert forall|segment: int, x: Interval|
        0 <= segment < SEGMENTS implies (#[trigger] detached.intervals_at(segment).contains(x)
        <==> start.intervals_at(segment).contains(x)
        && detached.units.records@.dom().contains(x.unit)
        && detached.units.records@[x.unit].detached is None) by {
        assert(start.intervals_at(segment) == retired.intervals_at(segment));
        if detached.intervals_at(segment).contains(x) {
            assert(detached.units.names_access(x, segment));
        }
    }
}

proof fn lemma_way(start: Lifetime, collected: Lifetime, retired: Lifetime, detached: Lifetime)
    requires
        collected.units.records == start.units.records,
        collected.slots == start.slots,
        collected.readers == start.readers,
        retired.readers == start.readers,
        retired.units.records@.dom() == collected.units.records@.dom(),
        retired.core.execution.id() >= collected.core.execution.id(),
        forall|unit: Handle| #[trigger]
            collected.units.records@.dom().contains(unit) ==> retired.units.records@[unit]
                == collected.units.records@[unit] || collected.rootless(unit) && retired_since(
                collected.units.records@[unit],
                retired.units.records@[unit],
                collected.core.execution,
            ),
        detached.units.records@.dom() == retired.units.records@.dom(),
        forall|unit: Handle| #[trigger]
            retired.units.records@.dom().contains(unit) ==> {
                &&& same_unit(detached.units.records@[unit], retired.units.records@[unit])
                &&& detached.units.records@[unit].lifecycle == retired.units.records@[unit].lifecycle
                &&& detached.units.records@[unit].retirement
                    == retired.units.records@[unit].retirement
                &&& detached.units.records@[unit].snapshots
                    == retired.units.records@[unit].snapshots
                &&& detached.units.records@[unit].pins == retired.units.records@[unit].pins
                &&& detached.units.records@[unit].family == retired.units.records@[unit].family
                &&& detached.units.records@[unit].detached == retired.units.records@[unit].detached
                    || retired.detachable(unit)
                &&& retired.units.records@[unit].detached is Some ==> detached.units.records@[unit]
                    == retired.units.records@[unit]
            },
    ensures
        forall|unit: Handle| #[trigger]
            start.units.records@.dom().contains(unit) ==> on_its_way(start, detached, unit),
{
    assert forall|unit: Handle| #[trigger] start.units.records@.dom().contains(
        unit,
    ) implies on_its_way(start, detached, unit) by {
        assert(collected.units.records@.dom().contains(unit));
        assert(retired.units.records@.dom().contains(unit));
        assert(collected.rooted(collected.units.records@[unit]) == start.rooted(
            start.units.records@[unit],
        ));
        if retired.detachable(unit) {
            if !collected.rootless(unit) {
                let epoch = match start.units.records@[unit].lifecycle {
                    Lifecycle::Retired(epoch) => epoch,
                    _ => arbitrary(),
                };
                assert(start.quiescent_at(epoch.id()) == retired.quiescent_at(epoch.id()));
            }
        }
    }
}

/// A reader that entered before a unit was retired keeps its code, and one that
/// entered before the unit left the directory keeps its fault records.
pub proof fn law_readers_keep_units(process: Lifetime, reader: Handle, unit: Handle)
    requires
        process.readers@.dom().contains(reader),
        process.readers@[reader].epoch != 0,
    ensures
        process.units.records@[unit].lifecycle matches Lifecycle::Retired(epoch)
            && process.readers@[reader].epoch <= epoch.id() ==> !process.detachable(unit),
        process.units.records@[unit].detached matches Some(epoch)
            && process.readers@[reader].epoch <= epoch.id() ==> !process.reclaimable(unit),
{
}

/// Snapshots and promises keep a unit.
pub proof fn law_references_keep_units(process: Lifetime, unit: Handle)
    requires
        process.units.records@[unit].snapshots != 0 || process.units.records@[unit].pins != 0,
    ensures
        !process.removable(unit),
        !process.detachable(unit),
        !process.reclaimable(unit),
{
}

/// A unit that has left the directory leaves it once, and its fault records outlive every
/// reader that was inside when it left.
pub proof fn law_fault_records_outlive_readers(
    before: Lifetime,
    after: Lifetime,
    unit: Handle,
    reader: Handle,
)
    requires
        before.detachable(unit),
        leaves_directory(before, after, unit, Ok(true)),
        after.readers@.dom().contains(reader),
        after.readers@[reader].epoch != 0,
        after.readers@[reader].epoch <= before.core.execution.id(),
    ensures
        !after.detachable(unit),
        !after.reclaimable(unit),
        after.units.records@[unit].unit == before.units.records@[unit].unit,
        after.units.records@[unit].lifecycle == before.units.records@[unit].lifecycle,
        forall|other: Handle| #[trigger]
            before.units.records@.dom().contains(other) && other != unit
                ==> after.units.records@[other] == before.units.records@[other],
{
    reveal(leaves_directory);
}

} // verus!
