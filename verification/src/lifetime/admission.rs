//! What a unit must meet to be taken in, and what its publication leaves behind.

use vstd::multiset::Multiset;
use vstd::prelude::*;
use super::cleared::lowered;
use super::coordinator::{Error, Reason};
use super::directory::{ordered, Interval};
use super::dispatch::Publication;
use super::prepare::{code_overlaps, faults_ordered, overlap, unit_interval, PreparedUnit};
use super::process::{byte_sum, charge_fault, charges_fault, grown, Lifecycle, Lifetime};
use super::pages::{without_pages, Association};
use super::publish::{publishes, with_pages};
use super::registry::Handle;
use super::unit::{first_fault, CodePageDependency, Input, Instruction, UnitFault};
use crate::abi::dispatch::PublishedEntry;
use crate::abi::identity::AdmissionEpoch;
use crate::executable::cache::Cache;
use crate::executable::{Tier, SEGMENTS};

verus! {

/// The slot that the publication was captured from is still the one its key leads to, and
/// nothing was published there since.
pub open spec fn untouched(process: Lifetime, publication: Publication) -> bool {
    &&& process.core.admitted() == Ok::<AdmissionEpoch, Error>(publication.admission)
    &&& process.keys@.dom().contains(publication.key)
    &&& process.keys@[publication.key] == publication.slot
    &&& process.slots@[publication.slot].payload.reachability_of() == publication.reachability
}

/// Published code of the low tier holds the instruction.
pub open spec fn runs_below(process: Lifetime, instruction: Instruction) -> bool {
    exists|unit: Handle| #[trigger]
        process.units.records@.dom().contains(unit) && process.units.records@[unit].unit.input.tier
            == Tier::Lcq && process.units.records@[unit].lifecycle == Lifecycle::Published
            && process.units.records@[unit].unit.input.instructions@.contains(instruction)
}

/// The entry belongs to a published unit.
pub open spec fn stands(process: Lifetime, entry: PublishedEntry) -> bool {
    exists|unit: Handle| #[trigger]
        process.units.records@.dom().contains(unit) && process.units.records@[unit].unit.id
            == entry.unit && process.units.records@[unit].unit.version == entry.version
            && process.units.records@[unit].lifecycle == Lifecycle::Published
}

/// Some family's unit translates the instruction too.
pub open spec fn optimized(process: Lifetime, instruction: Instruction) -> bool {
    exists|family: Handle, j: int|
        #![trigger process.units.families@.dom().contains(family), process.units.records@[process.units.families@[family].unit].unit.input.instructions@[j]]
        process.units.families@.dom().contains(family) && process.units.records@.dom().contains(
            process.units.families@[family].unit,
        ) && 0 <= j
            < process.units.records@[process.units.families@[family].unit].unit.input.instructions@.len()
            && process.units.records@[process.units.families@[family].unit].unit.input.instructions@[j].key
            == instruction.key
}

/// No index has a fault exactly where the first fault is none.
proof fn lemma_faultless(f: spec_fn(int) -> Option<UnitFault>, from: int, len: int)
    ensures
        first_fault(f, from, len) is None <==> forall|i: int|
            from <= i < len ==> (#[trigger] f(i)) is None,
    decreases len - from,
{
    if from < len {
        lemma_faultless(f, from + 1, len);
        if f(from) is None && first_fault(f, from + 1, len) is None {
            assert forall|i: int| from <= i < len implies (#[trigger] f(i)) is None by {
                if i > from {
                }
            }
        }
    }
}

/// A unit is taken in exactly where every slot is as it was when captured, the unit was
/// translated under the present admission and from the present code, and, of a unit of the
/// high tier, where the tier works, no other family holds one of its instructions, each
/// instruction runs in published low-tier code, and each slot has published low-tier code
/// to fall back to.
pub proof fn law_units_are_taken_in(
    process: Lifetime,
    publications: Seq<Publication>,
    input: Input,
    cursor: u64,
)
    ensures
        process.admission_fault(publications, input, cursor) is None <==> {
            &&& forall|i: int|
                0 <= i < publications.len() ==> untouched(process, #[trigger] publications[i])
            &&& input.identity.admission == process.core.admission
            &&& input.cursor == cursor
            &&& input.tier == Tier::Hcq ==> {
                &&& process.units.hcq_failure is None
                &&& forall|i: int|
                    0 <= i < input.instructions@.len() ==> !optimized(
                        process,
                        #[trigger] input.instructions@[i],
                    ) && runs_below(process, input.instructions@[i])
                &&& forall|i: int|
                    0 <= i < publications.len() ==> (process.slots@[(
                    #[trigger] publications[i]).slot].payload.lcq_of() matches Some(entry)
                        && stands(process, entry))
            }
        },
{
    reveal(Lifetime::admission_fault);
    let f = |i: int| process.publication_fault(publications[i]);
    let g = |i: int| process.image_fault(input.instructions@[i]);
    let h = |i: int| process.baseline_fault(publications[i]);
    let n = publications.len() as int;
    let m = input.instructions@.len() as int;
    lemma_faultless(f, 0, n);
    lemma_faultless(g, 0, m);
    lemma_faultless(h, 0, n);
    assert forall|i: int| 0 <= i < n implies (f(i) is None <==> untouched(
        process,
        #[trigger] publications[i],
    )) by {}
    assert forall|i: int| 0 <= i < m implies (g(i) is None <==> runs_below(
        process,
        #[trigger] input.instructions@[i],
    )) by {
        lemma_image(process, input.instructions@[i]);
    }
    assert forall|i: int| 0 <= i < n implies (h(i) is None <==> (process.slots@[(
    #[trigger] publications[i]).slot].payload.lcq_of() matches Some(entry) && stands(
        process,
        entry,
    ))) by {
        match process.slots@[publications[i].slot].payload.lcq_of() {
            Some(entry) => lemma_stands(process, entry),
            None => {},
        }
    }
    lemma_optimized(process, input.instructions@);
    if forall|i: int| 0 <= i < n ==> untouched(process, #[trigger] publications[i]) {
        assert(forall|i: int| 0 <= i < n ==> (#[trigger] f(i)) is None) by {
            assert forall|i: int| 0 <= i < n implies (#[trigger] f(i)) is None by {
                assert(untouched(process, publications[i]));
            }
        }
    }
    if forall|i: int| 0 <= i < m ==> runs_below(process, #[trigger] input.instructions@[i]) {
        assert forall|i: int| 0 <= i < m implies (#[trigger] g(i)) is None by {
            assert(runs_below(process, input.instructions@[i]));
        }
    }
    if forall|i: int|
        0 <= i < n ==> (process.slots@[(#[trigger] publications[i]).slot].payload.lcq_of() matches Some(
            entry,
        ) && stands(process, entry)) {
        assert forall|i: int| 0 <= i < n implies (#[trigger] h(i)) is None by {
            assert(process.slots@[publications[i].slot].payload.lcq_of() is Some);
        }
    }
    if first_fault(f, 0, n) is None {
        assert forall|i: int| 0 <= i < n implies untouched(process, #[trigger] publications[i]) by {
            assert(f(i) is None);
        }
    }
    if first_fault(g, 0, m) is None {
        assert forall|i: int| 0 <= i < m implies runs_below(
            process,
            #[trigger] input.instructions@[i],
        ) by {
            assert(g(i) is None);
        }
    }
    if first_fault(h, 0, n) is None {
        assert forall|i: int| 0 <= i < n implies (process.slots@[(
        #[trigger] publications[i]).slot].payload.lcq_of() matches Some(entry) && stands(
            process,
            entry,
        )) by {
            assert(h(i) is None);
        }
    }
}

proof fn lemma_image(process: Lifetime, instruction: Instruction)
    ensures
        process.units.has_image(instruction) == runs_below(process, instruction),
{
}

proof fn lemma_stands(process: Lifetime, entry: PublishedEntry)
    ensures
        process.units.has_published(entry) == stands(process, entry),
{
}

proof fn lemma_optimized(process: Lifetime, instructions: Seq<Instruction>)
    ensures
        process.units.overlaps(instructions) <==> exists|i: int|
            0 <= i < instructions.len() && optimized(process, #[trigger] instructions[i]),
{
    if process.units.overlaps(instructions) {
        let family = choose|family: Handle| #[trigger]
            process.units.families@.dom().contains(family) && process.units.records@.dom().contains(
                process.units.families@[family].unit,
            ) && super::prepare::shares_instruction(
                process.units.records@[process.units.families@[family].unit].unit.input.instructions@,
                instructions,
            );
        let held =
            process.units.records@[process.units.families@[family].unit].unit.input.instructions@;
        let (j, i) = choose|j: int, i: int|
            0 <= j < held.len() && 0 <= i < instructions.len() && (#[trigger] held[j]).key == (
            #[trigger] instructions[i]).key;
        assert(optimized(process, instructions[i]));
    }
    if exists|i: int| 0 <= i < instructions.len() && optimized(process, #[trigger] instructions[i]) {
        let i = choose|i: int|
            0 <= i < instructions.len() && optimized(process, #[trigger] instructions[i]);
        let (family, j) = choose|family: Handle, j: int|
            #![trigger process.units.families@.dom().contains(family), process.units.records@[process.units.families@[family].unit].unit.input.instructions@[j]]
            process.units.families@.dom().contains(family) && process.units.records@.dom().contains(
                process.units.families@[family].unit,
            ) && 0 <= j
                < process.units.records@[process.units.families@[family].unit].unit.input.instructions@.len()
                && process.units.records@[process.units.families@[family].unit].unit.input.instructions@[j].key
                == instructions[i].key;
        let held =
            process.units.records@[process.units.families@[family].unit].unit.input.instructions@;
        assert(held[j].key == instructions[i].key);
        assert(super::prepare::shares_instruction(held, instructions));
    }
}

/// The byte at the address belongs to native code of the unit that may fault.
pub open spec fn may_fault_at(input: Input, pc: int) -> bool {
    exists|k: int|
        0 <= k < input.faults@.len() && input.code.address + (
        #[trigger] input.faults@[k]).native_start <= pc < input.code.address
            + input.faults@[k].native_end
}

/// The byte at the address is attributed to a unit.
pub open spec fn attributed(intervals: Seq<Interval>, pc: int) -> bool {
    exists|j: int|
        0 <= j < intervals.len() && (#[trigger] intervals[j]).start <= pc < intervals[j].end
}

/// A unit's code overlaps what is published exactly where one byte would belong to both.
pub proof fn law_overlapping_code_shares_a_byte(input: Input, intervals: Seq<Interval>)
    requires
        ordered(intervals),
        input.code.wf(),
        faults_ordered(input),
    ensures
        code_overlaps(input, intervals) <==> exists|pc: int| #[trigger]
            may_fault_at(input, pc) && attributed(intervals, pc),
{
    let nobody = Handle { index: 0, generation: 0 };
    if code_overlaps(input, intervals) {
        let (j, k) = choose|j: int, k: int|
            0 <= j < intervals.len() && 0 <= k < input.faults@.len() && #[trigger] overlap(
                intervals[j],
                unit_interval(input, nobody, k),
            );
        let start = input.code.address + input.faults@[k].native_start;
        let pc = if intervals[j].start <= start {
            start
        } else {
            intervals[j].start as int
        };
        assert(input.code.address + input.faults@[k].native_start <= pc < input.code.address
            + input.faults@[k].native_end);
        assert(intervals[j].start <= pc < intervals[j].end);
        assert(may_fault_at(input, pc));
        assert(attributed(intervals, pc));
    }
    if exists|pc: int| #[trigger] may_fault_at(input, pc) && attributed(intervals, pc) {
        let pc = choose|pc: int| #[trigger] may_fault_at(input, pc) && attributed(intervals, pc);
        let k = choose|k: int|
            0 <= k < input.faults@.len() && input.code.address + (
            #[trigger] input.faults@[k]).native_start <= pc < input.code.address
                + input.faults@[k].native_end;
        let j = choose|j: int|
            0 <= j < intervals.len() && (#[trigger] intervals[j]).start <= pc < intervals[j].end;
        assert(overlap(intervals[j], unit_interval(input, nobody, k)));
    }
}

/// Amounts are refused together exactly where their sum is refused: what was charged of
/// them on the way makes no difference.
pub proof fn law_amounts_are_charged_together(cache: Cache, bytes: Seq<int>, tier: Tier)
    requires
        cache.wf(),
        bytes.len() > 0,
        forall|i: int| 0 <= i < bytes.len() ==> 0 <= #[trigger] bytes[i],
    ensures
        charges_fault(cache, bytes, tier) is None <==> charge_fault(cache, byte_sum(bytes), tier)
            is None,
{
    lemma_charged_together(cache, bytes, tier);
}

proof fn lemma_charged_together(cache: Cache, bytes: Seq<int>, tier: Tier)
    requires
        cache.wf(),
        forall|i: int| 0 <= i < bytes.len() ==> 0 <= #[trigger] bytes[i],
    ensures
        0 <= byte_sum(bytes),
        bytes.len() > 0 ==> (charges_fault(cache, bytes, tier) is None <==> charge_fault(
            cache,
            byte_sum(bytes),
            tier,
        ) is None),
    decreases bytes.len(),
{
    if bytes.len() > 0 {
        let rest = bytes.drop_last();
        assert forall|i: int| 0 <= i < rest.len() implies 0 <= #[trigger] rest[i] by {
            assert(rest[i] == bytes[i]);
        }
        lemma_charged_together(cache, rest, tier);
        assert(0 <= bytes.last());
        crate::executable::cache::lemma_bytes_nonnegative(cache.segments@, 0, SEGMENTS as int);
        if rest.len() == 0 {
            assert(byte_sum(rest) == 0);
            assert(cache.charged(0) == cache);
        } else if charge_fault(cache, byte_sum(rest), tier) is None {
            super::process::lemma_charge_fits(cache, byte_sum(rest), tier);
        }
    }
}

/// Storage that is full at least doubles where a number can say so, never starts below
/// sixteen, and takes no more than either asks.
pub proof fn law_storage_doubles(capacity: usize)
    ensures
        grown(capacity) >= 16,
        2 * capacity <= usize::MAX ==> grown(capacity) >= 2 * capacity,
        2 * capacity > usize::MAX ==> grown(capacity) == usize::MAX,
        grown(capacity) <= 16 || grown(capacity) <= 2 * capacity,
{
}

/// Releases add up: two batches take what one batch of both takes, one release takes one,
/// and a count that ran out of numbers is never lowered.
pub proof fn law_releases_add_up(count: usize, first: int, second: int)
    requires
        0 <= first,
        0 <= second,
    ensures
        lowered(lowered(count, first), second) == lowered(count, first + second),
        lowered(count, 0) == count,
        0 < count < usize::MAX ==> lowered(count, 1) == count - 1,
        lowered(usize::MAX, first) == usize::MAX,
{
}

proof fn lemma_filtered_from(all: Seq<Interval>, keep: spec_fn(Interval) -> bool, i: int)
    requires
        0 <= i < all.filter(keep).len(),
    ensures
        all.contains(all.filter(keep)[i]),
    decreases all.len(),
{
    reveal(Seq::filter);
    if all.len() > 0 {
        let less = all.drop_last();
        let rest = all.filter(keep);
        if i < less.filter(keep).len() {
            lemma_filtered_from(less, keep, i);
            assert(rest[i] == less.filter(keep)[i]);
            let j = less.index_of(rest[i]);
            assert(all[j] == rest[i]);
        } else {
            assert(all[all.len() - 1] == rest[i]);
        }
    }
}

/// What a unit leaves in its segment is every interval of the others.
pub proof fn law_others_keep_their_intervals(process: Lifetime, unit: Handle, x: Interval)
    ensures
        process.rest_without(unit).contains(x) <==> process.intervals_at(
            process.segment_of(unit),
        ).contains(x) && x.unit != unit,
{
    let all = process.intervals_at(process.segment_of(unit));
    let keep = |interval: Interval| interval.unit != unit;
    let rest = all.filter(keep);
    assert(rest == process.rest_without(unit));
    broadcast use vstd::seq_lib::group_filter_ensures;

    if rest.contains(x) {
        let i = rest.index_of(x);
        assert(keep(rest[i]));
        lemma_filtered_from(all, keep, i);
    }
    if all.contains(x) && x.unit != unit {
        let i = all.index_of(x);
        assert(keep(all[i]));
    }
}

/// A published unit stands as it was prepared. Of the other units only low-tier code changes
/// that ran from one of its slots, and only where the unit is of the low tier itself: it is
/// replaced, and waits for its removal. No slot but the unit's own changes.
pub proof fn law_publication_replaces_what_its_slots_ran(
    before: Lifetime,
    after: Lifetime,
    prepared: PreparedUnit,
    cursor: u64,
    room: usize,
    unit: Handle,
    other: Handle,
    slot: Handle,
)
    requires
        publishes(before, after, prepared, cursor, room, Ok(unit)),
        before.units.records@.dom().contains(other),
        before.slots@.dom().contains(slot),
    ensures
        unit != other,
        after.units.records@[unit].unit == prepared.unit,
        after.units.records@[unit].lifecycle == Lifecycle::Published,
        after.units.records@[other].unit == before.units.records@[other].unit,
        after.units.records@[other] != before.units.records@[other] ==> {
            &&& prepared.unit.input.tier == Tier::Lcq
            &&& after.units.records@[other].lifecycle == Lifecycle::Superseded
            &&& after.units.records@[other].retirement matches Some(retirement)
                && retirement.reason == Reason::TierCutover
            &&& exists|i: int|
                0 <= i < prepared.publications@.len() && (before.slots@[(
                #[trigger] prepared.publications@[i]).slot].payload.lcq_of() matches Some(entry)
                    && entry.unit == before.units.records@[other].unit.id && entry.version
                    == before.units.records@[other].unit.version)
        },
        after.slots@[slot] != before.slots@[slot] ==> exists|i: int|
            0 <= i < prepared.publications@.len() && (#[trigger] prepared.publications@[i]).slot
                == slot && after.slots@[slot].payload == prepared.payloads@[i],
        prepared.unit.input.cursor == cursor,
        !code_overlaps(prepared.unit.input, before.intervals_at(prepared.segment())),
{
}

/// How many of the first pages make the association with the unit.
pub open spec fn times(
    pages: Seq<CodePageDependency>,
    unit: Handle,
    count: int,
    x: Association,
) -> nat
    decreases count,
{
    if count <= 0 {
        0
    } else if pages[count - 1].page == x.0 && pages[count - 1].generation == x.1 && unit.index
        == x.2 && unit.generation == x.3 {
        times(pages, unit, count - 1, x) + 1
    } else {
        times(pages, unit, count - 1, x)
    }
}

/// Publication notes the unit once for each page that it depends on, and what is taken of
/// the index for a unit is what its publication put there.
pub proof fn law_pages_leave_as_they_came(
    index: Multiset<Association>,
    pages: Seq<CodePageDependency>,
    unit: Handle,
    count: int,
)
    requires
        0 <= count <= pages.len(),
    ensures
        forall|x: Association| #[trigger]
            with_pages(index, pages, unit, count).count(x) == index.count(x) + times(
                pages,
                unit,
                count,
                x,
            ),
        without_pages(with_pages(index, pages, unit, count), pages, unit, count) =~= index,
{
    let all = with_pages(index, pages, unit, count);
    assert forall|x: Association| #[trigger]
        all.count(x) == index.count(x) + times(pages, unit, count, x) by {
        lemma_noted(index, pages, unit, count, x);
    }
    let left = without_pages(all, pages, unit, count);
    assert forall|x: Association| #[trigger] left.count(x) == index.count(x) by {
        lemma_noted(index, pages, unit, count, x);
        lemma_taken(all, pages, unit, count, x);
    }
}

proof fn lemma_noted(
    index: Multiset<Association>,
    pages: Seq<CodePageDependency>,
    unit: Handle,
    count: int,
    x: Association,
)
    requires
        0 <= count <= pages.len(),
    ensures
        with_pages(index, pages, unit, count).count(x) == index.count(x) + times(
            pages,
            unit,
            count,
            x,
        ),
    decreases count,
{
    broadcast use vstd::multiset::group_multiset_axioms;

    if count > 0 {
        lemma_noted(index, pages, unit, count - 1, x);
    }
}

proof fn lemma_taken(
    index: Multiset<Association>,
    pages: Seq<CodePageDependency>,
    unit: Handle,
    count: int,
    x: Association,
)
    requires
        0 <= count <= pages.len(),
    ensures
        without_pages(index, pages, unit, count).count(x) == if index.count(x) >= times(
            pages,
            unit,
            count,
            x,
        ) {
            index.count(x) - times(pages, unit, count, x)
        } else {
            0
        },
    decreases count,
{
    broadcast use vstd::multiset::group_multiset_axioms;

    if count > 0 {
        lemma_taken(index, pages, unit, count - 1, x);
    }
}

} // verus!
