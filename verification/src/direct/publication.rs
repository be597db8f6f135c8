//! When compiled code of a region may be published, and what the owner of a
//! worker does next.

use vstd::prelude::*;
use vstd::string::StringExecFns;
use super::error::{DirectJitError, DirectJitErrorKind};
use super::invalidation::{InvalidationSummary, PublishedRegion, Regions};
use super::scheduler::{HcqRequest, RegionKey};
use super::text::{decimal, decimal_of};

verus! {

pub const DEFAULT_MAX_NATIVE_CODE_BYTES: usize = 0x4000_0000;

#[derive(Clone, Copy, Debug, PartialEq, Eq, Structural)]
pub enum EntryState {
    Empty,
    CompilingLcq,
    Lcq,
    HcqQueued,
    Hcq,
}

/// The published state of a region's entry.
#[derive(Clone, Copy, Debug, PartialEq, Eq, Structural)]
pub struct EntryNode {
    pub generation: u64,
    pub state: EntryState,
    /// The address to run, or zero.
    pub entry: usize,
}

impl EntryNode {
    /// The region still waits for the code that was asked for.
    pub open spec fn awaits_hcq(self, generation: u64) -> bool {
        self.generation == generation && self.state == EntryState::HcqQueued && self.entry != 0
    }

    pub fn still_queued(self, request: &HcqRequest) -> (r: bool)
        ensures
            r == self.awaits_hcq(request.generation),
    {
        !(self.generation != request.generation || self.state != EntryState::HcqQueued
            || self.entry == 0)
    }
}

/// What a thread that needs the entry of a region does next.
#[derive(Clone, Copy, Debug, PartialEq, Eq, Structural)]
pub enum EntryStep {
    Enter(usize),
    Compile,
    /// Another thread compiles it.
    Wait,
}

/// A failure that sticks comes first, then a stop of the process, then the entry.
pub open spec fn entry_step_is(
    node: EntryNode,
    pending: bool,
    failure: Option<DirectJitError>,
    r: Result<EntryStep, DirectJitError>,
) -> bool {
    if failure is Some {
        r matches Err(error) && error.is(failure->0.kind, failure->0.detail@)
    } else if pending {
        r matches Err(error) && error.is(
            DirectJitErrorKind::Shutdown,
            "direct JIT process is shut down"@,
        )
    } else if node.entry != 0 {
        r == Ok::<EntryStep, DirectJitError>(EntryStep::Enter(node.entry))
    } else {
        match node.state {
            EntryState::Empty => r == Ok::<EntryStep, DirectJitError>(EntryStep::Compile),
            EntryState::CompilingLcq => r == Ok::<EntryStep, DirectJitError>(EntryStep::Wait),
            _ => r matches Err(error) && error.is(
                DirectJitErrorKind::Internal,
                "published JIT entry state has a null canonical cell"@,
            ),
        }
    }
}

/// Decides how a thread gets at the entry of a region.
pub fn entry_step(node: EntryNode, pending: bool, failure: &Option<DirectJitError>) -> (r: Result<
    EntryStep,
    DirectJitError,
>)
    ensures
        entry_step_is(node, pending, *failure, r),
{
    if let Some(error) = failure {
        return Err(error.duplicate());
    }
    if pending {
        return Err(DirectJitError::shutdown());
    }
    if node.entry != 0 {
        return Ok(EntryStep::Enter(node.entry));
    }
    match node.state {
        EntryState::Empty => Ok(EntryStep::Compile),
        EntryState::CompilingLcq => Ok(EntryStep::Wait),
        _ => Err(DirectJitError::internal("published JIT entry state has a null canonical cell")),
    }
}

/// The entry of a region that is published, for a thread that does not compile.
pub fn published_entry(
    entry: Option<usize>,
    pending: bool,
    failure: &Option<DirectJitError>,
) -> (r: Result<Option<usize>, DirectJitError>)
    ensures
        if failure is Some {
            r matches Err(error) && error.is(failure->0.kind, failure->0.detail@)
        } else if pending {
            r matches Err(error) && error.is(
                DirectJitErrorKind::Shutdown,
                "direct JIT process is shut down"@,
            )
        } else {
            r == Ok::<Option<usize>, DirectJitError>(
                if entry == Some(0usize) {
                    None
                } else {
                    entry
                },
            )
        },
{
    if let Some(error) = failure {
        return Err(error.duplicate());
    }
    if pending {
        return Err(DirectJitError::shutdown());
    }
    match entry {
        Some(0) => Ok(None),
        _ => Ok(entry),
    }
}

/// The text that reports a full code arena.
pub open spec fn arena_text(used: int, limit: int) -> Seq<char> {
    "direct JIT code arena exhausted: used="@ + decimal_of(used as nat) + " limit="@ + decimal_of(
        limit as nat,
    )
}

/// Counts new native code against the arena. The bytes stay counted when the
/// limit is passed.
pub fn account_native_bytes(used: usize, added: usize, limit: usize) -> (r: (
    usize,
    Result<(), DirectJitError>,
))
    ensures
        if used + added > usize::MAX {
            r.0 == used && (r.1 matches Err(error) && error.is(
                DirectJitErrorKind::Capacity,
                "direct JIT code size overflows"@,
            ))
        } else {
            &&& r.0 == used + added
            &&& if used + added > limit {
                r.1 matches Err(error) && error.is(
                    DirectJitErrorKind::Capacity,
                    arena_text(used + added, limit as int),
                )
            } else {
                r.1 is Ok
            }
        },
{
    match used.checked_add(added) {
        None => (used, Err(DirectJitError::capacity("direct JIT code size overflows"))),
        Some(total) => {
            if total > limit {
                let used_text = decimal(total as u64);
                let limit_text = decimal(limit as u64);
                let detail = String::from_str("direct JIT code arena exhausted: used=").concat(
                    used_text.as_str(),
                ).concat(" limit=").concat(limit_text.as_str());
                (total, Err(DirectJitError { kind: DirectJitErrorKind::Capacity, detail }))
            } else {
                (total, Ok(()))
            }
        },
    }
}

/// What becomes of code that was compiled for a region.
#[derive(Clone, Copy, Debug, PartialEq, Eq, Structural)]
pub enum PublishStep {
    Publish,
    /// The process stops.
    Shutdown,
    /// Somebody else changed the region meanwhile.
    Superseded,
    /// The guest code changed meanwhile.
    OutOfDate,
}

pub open spec fn lcq_step(
    node: EntryNode,
    generation: u64,
    pending: bool,
    changed: bool,
) -> PublishStep {
    if pending {
        PublishStep::Shutdown
    } else if node.generation != generation || node.state != EntryState::CompilingLcq {
        PublishStep::Superseded
    } else if changed {
        PublishStep::OutOfDate
    } else {
        PublishStep::Publish
    }
}

pub open spec fn hcq_step(node: EntryNode, generation: u64, pending: bool, changed: bool) -> PublishStep {
    if pending {
        PublishStep::Shutdown
    } else if !node.awaits_hcq(generation) {
        PublishStep::Superseded
    } else if changed {
        PublishStep::OutOfDate
    } else {
        PublishStep::Publish
    }
}

/// Decides about baseline code of a region, given what changed since it was read.
pub fn decide_lcq(
    node: EntryNode,
    generation: u64,
    pending: bool,
    changes: &InvalidationSummary,
    region: &PublishedRegion,
) -> (r: PublishStep)
    ensures
        r == lcq_step(node, generation, pending, changes.affects(*region)),
{
    if pending {
        return PublishStep::Shutdown;
    }
    if node.generation != generation || node.state != EntryState::CompilingLcq {
        return PublishStep::Superseded;
    }
    if changes.affects_published(region) {
        return PublishStep::OutOfDate;
    }
    PublishStep::Publish
}

/// Decides about optimized code of a region.
pub fn decide_hcq(
    node: EntryNode,
    request: &HcqRequest,
    pending: bool,
    changes: &InvalidationSummary,
    region: &PublishedRegion,
) -> (r: PublishStep)
    ensures
        r == hcq_step(node, request.generation, pending, changes.affects(*region)),
{
    if pending {
        return PublishStep::Shutdown;
    }
    if !node.still_queued(request) {
        return PublishStep::Superseded;
    }
    if changes.affects_published(region) {
        return PublishStep::OutOfDate;
    }
    PublishStep::Publish
}

impl Regions {
    fn find(&self, key: RegionKey) -> (r: Option<usize>)
        ensures
            match r {
                Some(k) => k < self.live@.len() && self.live@[k as int].key == key,
                None => !self.has_live(key),
            },
    {
        let mut k: usize = 0;
        while k < self.live.len()
            invariant
                k <= self.live@.len(),
                forall|j: int| 0 <= j < k ==> (#[trigger] self.live@[j]).key != key,
            decreases self.live@.len() - k,
        {
            if self.live[k].key == key {
                return Some(k);
            }
            k = k + 1;
        }
        None
    }

    fn notes(&self, page: u64, key: RegionKey) -> (r: bool)
        ensures
            r == self.dependents@.contains((page, key)),
    {
        let mut k: usize = 0;
        while k < self.dependents.len()
            invariant
                k <= self.dependents@.len(),
                forall|j: int| 0 <= j < k ==> #[trigger] self.dependents@[j] != (page, key),
            decreases self.dependents@.len() - k,
        {
            let (held, owner) = self.dependents[k];
            if held == page && owner == key {
                assert(self.dependents@[k as int] == (page, key));
                return true;
            }
            k = k + 1;
        }
        false
    }

    /// Notes which pages a region was read from, whether or not it is published.
    pub fn depend(&mut self, region: &PublishedRegion)
        requires
            old(self).wf(),
        ensures
            final(self).wf(),
            old(self).noted() ==> final(self).noted(),
            *final(self) == (Regions { dependents: final(self).dependents, ..*old(self) }),
            depends(*old(self), *final(self), *region),
    {
        let key = region.key;
        let mut k: usize = 0;
        while k < region.pages.len()
            invariant
                k <= region.pages@.len(),
                key == region.key,
                self.wf(),
                *self == (Regions { dependents: self.dependents, ..*old(self) }),
                forall|page: u64, other: RegionKey| #[trigger]
                    self.dependents@.contains((page, other)) <==> old(self).dependents@.contains(
                        (page, other),
                    ) || other == key && region.pages@.take(k as int).contains(page),
            decreases region.pages@.len() - k,
        {
            let page: u64 = region.pages[k];
            let ghost before = self.dependents@;
            if !self.notes(page, key) {
                self.dependents.push((page, key));
                proof {
                    assert(self.dependents@ =~= before.push((page, key)));
                }
            }
            proof {
                let seen = region.pages@.take(k as int);
                assert(region.pages@.take(k + 1) =~= seen.push(page));
                assert forall|held: u64, other: RegionKey| #[trigger]
                    self.dependents@.contains((held, other)) <==> old(self).dependents@.contains(
                        (held, other),
                    ) || other == key && region.pages@.take(k + 1).contains(held) by {
                    lemma_pushed(before, (page, key), (held, other));
                    lemma_pushed(seen, page, held);
                }
            }
            k = k + 1;
        }
        proof {
            assert(region.pages@.take(k as int) =~= region.pages@);
            if old(self).noted() {
                assert forall|i: int, p: int|
                    0 <= i < self.live@.len() && 0 <= p
                        < self.live@[i].pages@.len() implies self.dependents@.contains(
                    (#[trigger] self.live@[i].pages@[p], self.live@[i].key),
                ) by {
                    assert(old(self).live@[i].pages@[p] == self.live@[i].pages@[p]);
                    assert(old(self).dependents@.contains(
                        (self.live@[i].pages@[p], self.live@[i].key),
                    ));
                }
            }
        }
    }

    /// Registers a region that was just published, in place of the one that was
    /// there. The replaced region is retired.
    pub fn insert(&mut self, region: PublishedRegion) -> (r: bool)
        requires
            old(self).wf(),
        ensures
            final(self).wf(),
            old(self).noted() ==> final(self).noted(),
            r == old(self).has_live(region.key),
            final(self).cursor == old(self).cursor,
            final(self).live@.contains(region),
            forall|other: PublishedRegion|
                other.key != region.key ==> (#[trigger] final(self).live@.contains(other) <==> old(
                    self,
                ).live@.contains(other)),
            forall|other: PublishedRegion|
                #[trigger] final(self).live@.contains(other) && other.key == region.key ==> other
                    == region,
            if r {
                exists|k: int|
                    0 <= k < old(self).live@.len() && (#[trigger] old(self).live@[k]).key
                        == region.key && final(self).retired@ == old(self).retired@.push(
                        old(self).live@[k],
                    )
            } else {
                final(self).retired == old(self).retired
            },
            depends(*old(self), *final(self), region),
    {
        let key = region.key;
        let ghost published = region;
        let ghost before = self.live@;
        self.depend(&region);
        let ghost noted = *self;
        match self.find(key) {
            Some(at) => {
                let mut replaced = region;
                core::mem::swap(&mut self.live[at], &mut replaced);
                self.retired.push(replaced);
                proof {
                    assert(self.live@ =~= before.update(at as int, published));
                    lemma_replaced(before, self.live@, at as int, published);
                    lemma_noted_with(noted, *self, published);
                }
                true
            },
            None => {
                self.live.push(region);
                proof {
                    assert(self.live@ =~= before.push(published));
                    lemma_appended_region(before, self.live@, published);
                    lemma_noted_with(noted, *self, published);
                }
                false
            },
        }
    }
}

/// Each page that the region was read from is noted with it, beside what was noted.
pub open spec fn depends(before: Regions, after: Regions, region: PublishedRegion) -> bool {
    forall|page: u64, key: RegionKey| #[trigger]
        after.dependents@.contains((page, key)) <==> before.dependents@.contains((page, key))
            || key == region.key && region.pages@.contains(page)
}

proof fn lemma_noted_with(before: Regions, after: Regions, region: PublishedRegion)
    requires
        after.dependents == before.dependents,
        forall|k: int|
            0 <= k < after.live@.len() ==> (#[trigger] after.live@[k]) == region
                || before.live@.contains(after.live@[k]),
        forall|page: u64|
            region.pages@.contains(page) ==> #[trigger] before.dependents@.contains(
                (page, region.key),
            ),
    ensures
        before.noted() ==> after.noted(),
{
    if before.noted() {
        assert forall|k: int, p: int|
            0 <= k < after.live@.len() && 0 <= p
                < after.live@[k].pages@.len() implies after.dependents@.contains(
            (#[trigger] after.live@[k].pages@[p], after.live@[k].key),
        ) by {
            let held = after.live@[k];
            if held == region {
                assert(region.pages@.contains(held.pages@[p]));
            } else {
                let j = choose|j: int| 0 <= j < before.live@.len() && before.live@[j] == held;
                assert(before.live@[j].pages@[p] == held.pages@[p]);
            }
        }
    }
}

proof fn lemma_pushed<T>(before: Seq<T>, value: T, x: T)
    ensures
        before.push(value).contains(x) <==> before.contains(x) || x == value,
{
    let after = before.push(value);
    assert(after[before.len() as int] == value);
    if before.contains(x) {
        let k = choose|k: int| 0 <= k < before.len() && before[k] == x;
        assert(after[k] == x);
    }
    if after.contains(x) {
        let k = choose|k: int| 0 <= k < after.len() && after[k] == x;
        if k < before.len() {
            assert(before[k] == x);
        }
    }
}

proof fn lemma_replaced(
    before: Seq<PublishedRegion>,
    after: Seq<PublishedRegion>,
    at: int,
    region: PublishedRegion,
)
    requires
        0 <= at < before.len(),
        before[at].key == region.key,
        after == before.update(at, region),
        forall|i: int, j: int|
            0 <= i < j < before.len() ==> (#[trigger] before[i]).key != (#[trigger] before[j]).key,
    ensures
        forall|i: int, j: int|
            0 <= i < j < after.len() ==> (#[trigger] after[i]).key != (#[trigger] after[j]).key,
        after.contains(region),
        forall|other: PublishedRegion|
            other.key != region.key ==> (#[trigger] after.contains(other) <==> before.contains(
                other,
            )),
        forall|other: PublishedRegion|
            #[trigger] after.contains(other) && other.key == region.key ==> other == region,
{
    assert(after[at] == region);
    assert forall|i: int, j: int| 0 <= i < j < after.len() implies (#[trigger] after[i]).key != (
    #[trigger] after[j]).key by {
        assert(before[i].key != before[j].key);
    }
    assert forall|other: PublishedRegion|
        other.key != region.key implies (#[trigger] after.contains(other) <==> before.contains(
        other,
    )) by {
        if after.contains(other) {
            let k = choose|k: int| 0 <= k < after.len() && after[k] == other;
            assert(before[k] == other);
        }
        if before.contains(other) {
            let k = choose|k: int| 0 <= k < before.len() && before[k] == other;
            assert(after[k] == other);
        }
    }
    assert forall|other: PublishedRegion|
        #[trigger] after.contains(other) && other.key == region.key implies other == region by {
        let k = choose|k: int| 0 <= k < after.len() && after[k] == other;
        if k < at {
            assert(before[k].key != before[at].key);
        } else if k > at {
            assert(before[at].key != before[k].key);
        }
    }
}

proof fn lemma_appended_region(
    before: Seq<PublishedRegion>,
    after: Seq<PublishedRegion>,
    region: PublishedRegion,
)
    requires
        after == before.push(region),
        forall|k: int| 0 <= k < before.len() ==> (#[trigger] before[k]).key != region.key,
    ensures
        after.contains(region),
        forall|other: PublishedRegion|
            other.key != region.key ==> (#[trigger] after.contains(other) <==> before.contains(
                other,
            )),
        forall|other: PublishedRegion|
            #[trigger] after.contains(other) && other.key == region.key ==> other == region,
{
    assert(after[before.len() as int] == region);
    assert forall|other: PublishedRegion|
        other.key != region.key implies (#[trigger] after.contains(other) <==> before.contains(
        other,
    )) by {
        if after.contains(other) {
            let k = choose|k: int| 0 <= k < after.len() && after[k] == other;
            assert(before[k] == other);
        }
        if before.contains(other) {
            let k = choose|k: int| 0 <= k < before.len() && before[k] == other;
            assert(after[k] == other);
        }
    }
    assert forall|other: PublishedRegion|
        #[trigger] after.contains(other) && other.key == region.key implies other == region by {
        let k = choose|k: int| 0 <= k < after.len() && after[k] == other;
        if k < before.len() {
            assert(before[k].key != region.key);
        }
    }
}

/// Code that was compiled from memory that has changed since is never published.
pub proof fn law_stale_code_is_not_published(
    node: EntryNode,
    generation: u64,
    pending: bool,
    changes: InvalidationSummary,
    region: PublishedRegion,
)
    requires
        changes.affects(region),
    ensures
        lcq_step(node, generation, pending, changes.affects(region)) != PublishStep::Publish,
        hcq_step(node, generation, pending, changes.affects(region)) != PublishStep::Publish,
{
}

/// Code is published exactly where the process runs on, the node still waits for it and
/// nothing changed that it was read from. A stop of the process comes before everything,
/// and a node that changed hands before a change of memory.
pub proof fn law_current_code_is_published(
    node: EntryNode,
    generation: u64,
    pending: bool,
    changed: bool,
)
    ensures
        lcq_step(node, generation, pending, changed) is Publish <==> !pending && !changed
            && node.generation == generation && node.state is CompilingLcq,
        hcq_step(node, generation, pending, changed) is Publish <==> !pending && !changed
            && node.generation == generation && node.state is HcqQueued && node.entry != 0,
        pending <==> lcq_step(node, generation, pending, changed) is Shutdown,
        pending <==> hcq_step(node, generation, pending, changed) is Shutdown,
        lcq_step(node, generation, pending, changed) is OutOfDate ==> changed && node.generation
            == generation,
        hcq_step(node, generation, pending, changed) is OutOfDate ==> changed && node.generation
            == generation,
{
}

/// A thread enters only code that is published, and never after a failure or a stop; it
/// compiles only where nobody has started to, and waits only for somebody who has.
pub proof fn law_entries_are_published(
    node: EntryNode,
    pending: bool,
    failure: Option<DirectJitError>,
    step: EntryStep,
)
    requires
        entry_step_is(node, pending, failure, Ok(step)),
    ensures
        failure is None,
        !pending,
        match step {
            EntryStep::Enter(address) => address != 0 && address == node.entry,
            EntryStep::Compile => node.entry == 0 && node.state is Empty,
            EntryStep::Wait => node.entry == 0 && node.state is CompilingLcq,
        },
{
}

} // verus!
