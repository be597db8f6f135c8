//! Preparation of a unit: everything that can be refused is refused here.

use vstd::prelude::*;
use super::coordinator::{exhausted, Error};
use super::directory::{insert_interval, ordered, Interval, Table};
use super::dispatch::{payload_bytes, Publication};
use super::process::{
    amounts, byte_sum, bytes_of, charge_fault, charges_fault, count_down, count_up, decrement,
    increment, lemma_charge_fits, refunded, reports, ChargeFault, DispatchSlot, Family, Lifecycle,
    Lifetime, UnitRecord, Units,
};
use super::registry::Handle;
use super::unit::{
    capped, capped_product, fault_of, faulted, first_fault, first_of, invalid,
    law_valid_entries_lie_in_code, law_valid_faults_are_ordered, lemma_no_fault, CodeUnit, Input,
    Instruction, UnitFault,
};
use super::units::{grows_units, lemma_units_alike, publication_failed, refusal_of, LargerIndex};
use crate::abi::dispatch::{DispatchPayload, HcqEntry, PublishedEntry};
use crate::abi::identity::{FamilyVersion, HcqFamilyId, ReachabilityVersion};
use crate::abi::NATIVE_ABI_VERSION;
use crate::executable::cache::{Cache, MetadataLease};
use crate::executable::Tier;

verus! {

/// The family that a unit of the high tier will found.
pub struct PreparedFamily {
    pub id: HcqFamilyId,
    pub version: FamilyVersion,
    /// The units that it relies on. Each is pinned.
    pub baselines: Vec<Handle>,
    pub charge: MetadataLease,
}

/// A unit with everything its publication needs.
pub struct PreparedUnit {
    pub publications: Vec<Publication>,
    pub unit: CodeUnit,
    pub family: Option<PreparedFamily>,
    /// The installation epoch of the table that the new one replaces.
    pub previous: Option<u64>,
    pub payloads: Vec<DispatchPayload>,
    /// For the unit and the list of its slots.
    pub charge: MetadataLease,
    pub table_charge: MetadataLease,
    /// For the publications and payloads, until they are published or given up.
    pub held: MetadataLease,
}

/// The bounds of a unit's fault records are in order and lie in its code.
pub open spec fn faults_ordered(input: Input) -> bool {
    &&& forall|k: int|
        0 <= k < input.faults@.len() ==> (#[trigger] input.faults@[k]).native_start
            < input.faults@[k].native_end <= input.code.allocation.span.len
    &&& forall|j: int, k: int|
        0 <= j < k < input.faults@.len() ==> (#[trigger] input.faults@[j]).native_end <= (
        #[trigger] input.faults@[k]).native_start
}

/// Where the native bytes of a fault record lie.
pub open spec fn unit_interval(input: Input, unit: Handle, k: int) -> Interval {
    Interval {
        start: (input.code.address + input.faults@[k].native_start) as usize,
        end: (input.code.address + input.faults@[k].native_end) as usize,
        unit,
        fault: k as usize,
    }
}

pub open spec fn overlap(a: Interval, b: Interval) -> bool {
    a.start < b.end && b.start < a.end
}

/// The unit's code lies where a published unit faults.
pub open spec fn code_overlaps(input: Input, intervals: Seq<Interval>) -> bool {
    exists|j: int, k: int|
        0 <= j < intervals.len() && 0 <= k < input.faults@.len() && #[trigger] overlap(
            intervals[j],
            unit_interval(input, Handle { index: 0, generation: 0 }, k),
        )
}

/// The intervals of a table with those of the unit put in. Nothing where they
/// overlap.
pub fn extend_intervals(intervals: &Vec<Interval>, input: &Input, unit: Handle) -> (r: Option<
    Vec<Interval>,
>)
    requires
        ordered(intervals@),
        input.code.wf(),
        faults_ordered(*input),
    ensures
        r is None <==> code_overlaps(*input, intervals@),
        r matches Some(all) ==> {
            &&& ordered(all@)
            &&& all@.len() == intervals@.len() + input.faults@.len()
            &&& forall|x: Interval|
                all@.contains(x) <==> intervals@.contains(x) || exists|k: int|
                    0 <= k < input.faults@.len() && x == #[trigger] unit_interval(*input, unit, k)
        },
{
    let mut all: Vec<Interval> = Vec::new();
    let mut c: usize = 0;
    while c < intervals.len()
        invariant
            c <= intervals@.len(),
            all@ == intervals@.take(c as int),
        decreases intervals@.len() - c,
    {
        all.push(intervals[c]);
        c = c + 1;
        assert(intervals@.take(c as int) =~= intervals@.take(c - 1).push(intervals@[c - 1]));
    }
    assert(all@ =~= intervals@);
    let base: usize = input.code.address;
    let mut k: usize = 0;
    while k < input.faults.len()
        invariant
            k <= input.faults@.len(),
            base == input.code.address,
            input.code.wf(),
            faults_ordered(*input),
            ordered(all@),
            all@.len() == intervals@.len() + k,
            forall|x: Interval|
                #![trigger all@.contains(x)]
                all@.contains(x) <==> intervals@.contains(x) || exists|j: int|
                    0 <= j < k && x == #[trigger] unit_interval(*input, unit, j),
            forall|i: int, j: int|
                0 <= i < intervals@.len() && 0 <= j < k ==> !#[trigger] overlap(
                    intervals@[i],
                    unit_interval(*input, Handle { index: 0, generation: 0 }, j),
                ),
        decreases input.faults@.len() - k,
    {
        let fault = input.faults[k];
        assert(fault.native_start < fault.native_end <= input.code.allocation.span.len);
        let interval = Interval {
            start: base + fault.native_start as usize,
            end: base + fault.native_end as usize,
            unit,
            fault: k,
        };
        let ghost before = all@;
        assert(interval == unit_interval(*input, unit, k as int));
        let anonymous: Ghost<Interval> = Ghost(
            unit_interval(*input, Handle { index: 0, generation: 0 }, k as int),
        );
        if !insert_interval(&mut all, interval) {
            proof {
                let j = choose|j: int|
                    0 <= j < before.len() && !((#[trigger] before[j]).end <= interval.start
                        || interval.end <= before[j].start);
                assert(before.contains(before[j]));
                if intervals@.contains(before[j]) {
                    let i = choose|i: int| 0 <= i < intervals@.len() && intervals@[i] == before[j];
                    assert(overlap(intervals@[i], anonymous@));
                } else {
                    let i = choose|i: int|
                        0 <= i < k && before[j] == #[trigger] unit_interval(*input, unit, i);
                    assert(input.faults@[i].native_end <= input.faults@[k as int].native_start);
                }
            }
            return None;
        }
        proof {
            let at = choose|at: int|
                0 <= at <= before.len() && all@ == #[trigger] before.insert(at, interval);
            assert forall|x: Interval|
                #![trigger all@.contains(x)]
                all@.contains(x) <==> intervals@.contains(x) || exists|j: int|
                    0 <= j < k + 1 && x == #[trigger] unit_interval(*input, unit, j) by {
                if all@.contains(x) {
                    let i = choose|i: int| 0 <= i < all@.len() && all@[i] == x;
                    if i < at {
                        assert(before[i] == x);
                        assert(before.contains(x));
                    } else if i == at {
                        assert(x == unit_interval(*input, unit, k as int));
                    } else {
                        assert(before[i - 1] == x);
                        assert(before.contains(x));
                    }
                }
                if intervals@.contains(x) || exists|j: int|
                    0 <= j < k + 1 && x == #[trigger] unit_interval(*input, unit, j) {
                    if x == interval {
                        assert(all@[at] == x);
                    } else {
                        assert(before.contains(x));
                        let i = choose|i: int| 0 <= i < before.len() && before[i] == x;
                        if i < at {
                            assert(all@[i] == x);
                        } else {
                            assert(all@[i + 1] == x);
                        }
                    }
                }
            }
            assert forall|i: int, j: int|
                0 <= i < intervals@.len() && 0 <= j < k + 1 implies !#[trigger] overlap(
                intervals@[i],
                unit_interval(*input, Handle { index: 0, generation: 0 }, j),
            ) by {
                if j == k {
                    assert(intervals@.contains(intervals@[i]));
                    assert(before.contains(intervals@[i]));
                    let b = choose|b: int| 0 <= b < before.len() && before[b] == intervals@[i];
                    assert(before[b].end <= interval.start || interval.end <= before[b].start);
                }
            }
        }
        k = k + 1;
    }
    Some(all)
}

/// Fault records that each follow the one before are in order.
pub proof fn lemma_faults_ordered(
    input: Input,
    process: u64,
    cache: u64,
    publications: Seq<Publication>,
)
    requires
        input.fault(process, cache, publications) is None,
    ensures
        faults_ordered(input),
{
    assert forall|k: int| 0 <= k < input.faults@.len() implies (
    #[trigger] input.faults@[k]).native_start < input.faults@[k].native_end
        <= input.code.allocation.span.len by {
        law_valid_faults_are_ordered(input, process, cache, publications, k);
    }
    assert forall|j: int, k: int| 0 <= j < k < input.faults@.len() implies (
    #[trigger] input.faults@[j]).native_end <= (#[trigger] input.faults@[k]).native_start by {
        lemma_faults_follow(input, process, cache, publications, j, k);
    }
}

proof fn lemma_faults_follow(
    input: Input,
    process: u64,
    cache: u64,
    publications: Seq<Publication>,
    j: int,
    k: int,
)
    requires
        input.fault(process, cache, publications) is None,
        0 <= j < k < input.faults@.len(),
    ensures
        input.faults@[j].native_end <= input.faults@[k].native_start,
    decreases k - j,
{
    law_valid_faults_are_ordered(input, process, cache, publications, k);
    if j < k - 1 {
        law_valid_faults_are_ordered(input, process, cache, publications, k - 1);
        lemma_faults_follow(input, process, cache, publications, j, k - 1);
    }
}

impl PreparedUnit {
    pub open spec fn wf(&self) -> bool {
        &&& self.unit.input.code.wf()
        &&& faults_ordered(self.unit.input)
        &&& self.publications@.len() == self.unit.input.entries@.len()
        &&& self.payloads@.len() == self.publications@.len()
        &&& self.publications@.len() > 0
        &&& (self.family is Some) == (self.unit.input.tier == Tier::Hcq)
        &&& forall|i: int, j: int|
            0 <= i < j < self.publications@.len() ==> (#[trigger] self.publications@[i]).key != (
            #[trigger] self.publications@[j]).key
    }
}

/// The low tier runs this very instruction from the unit.
pub open spec fn resident_image(record: UnitRecord, instruction: Instruction) -> bool {
    &&& record.unit.input.tier == Tier::Lcq
    &&& record.lifecycle == Lifecycle::Published
    &&& record.unit.input.instructions@.contains(instruction)
}

pub open spec fn is_unit(record: UnitRecord, entry: PublishedEntry) -> bool {
    record.unit.id == entry.unit && record.unit.version == entry.version
}

pub open spec fn shares_instruction(a: Seq<Instruction>, b: Seq<Instruction>) -> bool {
    exists|i: int, j: int|
        0 <= i < a.len() && 0 <= j < b.len() && (#[trigger] a[i]).key == (#[trigger] b[j]).key
}

pub open spec fn stale(bad: bool) -> Option<UnitFault> {
    if bad {
        Some(UnitFault::Stale)
    } else {
        None
    }
}

impl Units {
    /// An active family covers one of the instructions.
    pub open spec fn overlaps(&self, instructions: Seq<Instruction>) -> bool {
        exists|family: Handle| #[trigger]
            self.families@.dom().contains(family) && self.records@.dom().contains(
                self.families@[family].unit,
            ) && shares_instruction(
                self.records@[self.families@[family].unit].unit.input.instructions@,
                instructions,
            )
    }

    pub open spec fn has_image(&self, instruction: Instruction) -> bool {
        exists|unit: Handle| #[trigger]
            self.records@.dom().contains(unit) && resident_image(self.records@[unit], instruction)
    }

    pub open spec fn has_published(&self, entry: PublishedEntry) -> bool {
        exists|unit: Handle| #[trigger]
            self.records@.dom().contains(unit) && is_unit(self.records@[unit], entry)
                && self.records@[unit].lifecycle == Lifecycle::Published
    }

    pub fn overlaps_family(&self, instructions: &Vec<Instruction>) -> (r: bool)
        ensures
            r == self.overlaps(instructions@),
    {
        let handles = self.families.handles();
        let mut k: usize = 0;
        while k < handles.len()
            invariant
                k <= handles@.len(),
                forall|j: int|
                    0 <= j < handles@.len() ==> self.families@.dom().contains(
                        #[trigger] handles@[j],
                    ),
                forall|h: Handle| #[trigger]
                    self.families@.dom().contains(h) ==> handles@.contains(h),
                forall|j: int|
                    0 <= j < k ==> !(self.records@.dom().contains(
                        self.families@[#[trigger] handles@[j]].unit,
                    ) && shares_instruction(
                        self.records@[self.families@[handles@[j]].unit].unit.input.instructions@,
                        instructions@,
                    )),
            decreases handles@.len() - k,
        {
            assert(self.families@.dom().contains(handles@[k as int]));
            if let Some(family) = self.families.get(handles[k]) {
                if let Some(record) = self.records.get(family.unit) {
                    if share_instruction(&record.unit.input.instructions, instructions) {
                        return true;
                    }
                }
            }
            k = k + 1;
        }
        proof {
            if self.overlaps(instructions@) {
                let family = choose|family: Handle| #[trigger]
                    self.families@.dom().contains(family) && self.records@.dom().contains(
                        self.families@[family].unit,
                    ) && shares_instruction(
                        self.records@[self.families@[family].unit].unit.input.instructions@,
                        instructions@,
                    );
                let j = choose|j: int| 0 <= j < handles@.len() && handles@[j] == family;
                assert(handles@.contains(family));
            }
        }
        false
    }

    fn find_image(&self, instruction: Instruction) -> (r: Option<Handle>)
        ensures
            match r {
                Some(unit) => self.records@.dom().contains(unit) && resident_image(
                    self.records@[unit],
                    instruction,
                ),
                None => !self.has_image(instruction),
            },
    {
        let handles = self.records.handles();
        let mut k: usize = 0;
        while k < handles.len()
            invariant
                k <= handles@.len(),
                forall|j: int|
                    0 <= j < handles@.len() ==> self.records@.dom().contains(#[trigger] handles@[j]),
                forall|h: Handle| #[trigger]
                    self.records@.dom().contains(h) ==> handles@.contains(h),
                forall|j: int|
                    0 <= j < k ==> !resident_image(
                        self.records@[#[trigger] handles@[j]],
                        instruction,
                    ),
            decreases handles@.len() - k,
        {
            assert(self.records@.dom().contains(handles@[k as int]));
            if let Some(record) = self.records.get(handles[k]) {
                if record.unit.input.tier == Tier::Lcq && record.lifecycle == Lifecycle::Published
                    && holds_instruction(&record.unit.input.instructions, instruction) {
                    return Some(handles[k]);
                }
            }
            k = k + 1;
        }
        None
    }

    /// The record of the unit that a published entry belongs to.
    pub fn find_unit(&self, entry: PublishedEntry) -> (r: Option<Handle>)
        ensures
            match r {
                Some(unit) => self.records@.dom().contains(unit) && is_unit(
                    self.records@[unit],
                    entry,
                ),
                None => forall|unit: Handle| #[trigger]
                    self.records@.dom().contains(unit) ==> !is_unit(self.records@[unit], entry),
            },
    {
        let handles = self.records.handles();
        let mut k: usize = 0;
        while k < handles.len()
            invariant
                k <= handles@.len(),
                forall|j: int|
                    0 <= j < handles@.len() ==> self.records@.dom().contains(#[trigger] handles@[j]),
                forall|h: Handle| #[trigger]
                    self.records@.dom().contains(h) ==> handles@.contains(h),
                forall|j: int|
                    0 <= j < k ==> !is_unit(self.records@[#[trigger] handles@[j]], entry),
            decreases handles@.len() - k,
        {
            assert(self.records@.dom().contains(handles@[k as int]));
            if let Some(record) = self.records.get(handles[k]) {
                if record.unit.id == entry.unit && record.unit.version == entry.version {
                    return Some(handles[k]);
                }
            }
            k = k + 1;
        }
        None
    }

    fn find_published(&self, entry: PublishedEntry) -> (r: Option<Handle>)
        ensures
            match r {
                Some(unit) => self.records@.dom().contains(unit) && is_unit(
                    self.records@[unit],
                    entry,
                ) && self.records@[unit].lifecycle == Lifecycle::Published,
                None => !self.has_published(entry),
            },
    {
        let handles = self.records.handles();
        let mut k: usize = 0;
        while k < handles.len()
            invariant
                k <= handles@.len(),
                forall|j: int|
                    0 <= j < handles@.len() ==> self.records@.dom().contains(#[trigger] handles@[j]),
                forall|h: Handle| #[trigger]
                    self.records@.dom().contains(h) ==> handles@.contains(h),
                forall|j: int|
                    0 <= j < k ==> !(is_unit(self.records@[#[trigger] handles@[j]], entry)
                        && self.records@[handles@[j]].lifecycle == Lifecycle::Published),
            decreases handles@.len() - k,
        {
            assert(self.records@.dom().contains(handles@[k as int]));
            if let Some(record) = self.records.get(handles[k]) {
                if record.unit.id == entry.unit && record.unit.version == entry.version
                    && record.lifecycle == Lifecycle::Published {
                    return Some(handles[k]);
                }
            }
            k = k + 1;
        }
        None
    }
}

fn share_instruction(a: &Vec<Instruction>, b: &Vec<Instruction>) -> (r: bool)
    ensures
        r == shares_instruction(a@, b@),
{
    let mut i: usize = 0;
    while i < a.len()
        invariant
            i <= a@.len(),
            forall|x: int, y: int|
                0 <= x < i && 0 <= y < b@.len() ==> (#[trigger] a@[x]).key != (
                #[trigger] b@[y]).key,
        decreases a@.len() - i,
    {
        let mut j: usize = 0;
        while j < b.len()
            invariant
                i < a@.len(),
                j <= b@.len(),
                forall|y: int| 0 <= y < j ==> a@[i as int].key != (#[trigger] b@[y]).key,
            decreases b@.len() - j,
        {
            if a[i].key == b[j].key {
                return true;
            }
            j = j + 1;
        }
        i = i + 1;
    }
    false
}

fn holds_instruction(instructions: &Vec<Instruction>, instruction: Instruction) -> (r: bool)
    ensures
        r == instructions@.contains(instruction),
{
    let mut k: usize = 0;
    while k < instructions.len()
        invariant
            k <= instructions@.len(),
            forall|j: int| 0 <= j < k ==> #[trigger] instructions@[j] != instruction,
        decreases instructions@.len() - k,
    {
        if instructions[k] == instruction {
            return true;
        }
        k = k + 1;
    }
    false
}

fn holds_handle(handles: &Vec<Handle>, handle: Handle) -> (r: bool)
    ensures
        r == handles@.contains(handle),
{
    let mut k: usize = 0;
    while k < handles.len()
        invariant
            k <= handles@.len(),
            forall|j: int| 0 <= j < k ==> #[trigger] handles@[j] != handle,
        decreases handles@.len() - k,
    {
        if handles[k] == handle {
            return true;
        }
        k = k + 1;
    }
    false
}

impl Lifetime {
    pub open spec fn publication_fault(&self, publication: Publication) -> Option<UnitFault> {
        if self.current(publication) {
            None
        } else {
            Some(fault_of(self.publication_error(publication)))
        }
    }

    pub open spec fn image_fault(&self, instruction: Instruction) -> Option<UnitFault> {
        invalid(
            !self.units.has_image(instruction),
            "HCQ instruction has no matching resident LCQ image"@,
        )
    }

    pub open spec fn baseline_fault(&self, publication: Publication) -> Option<UnitFault> {
        match self.slots@[publication.slot].payload.lcq_of() {
            None => invalid(true, "HCQ entry has no resident LCQ baseline"@),
            Some(lcq) => stale(!self.units.has_published(lcq)),
        }
    }

    /// What the state refuses about a unit that is fit in itself, in the order in
    /// which it is looked at.
    #[verifier::opaque]
    pub open spec fn admission_fault(
        &self,
        publications: Seq<Publication>,
        input: Input,
        cursor: u64,
    ) -> Option<UnitFault> {
        first_of(
            first_fault(
                |i: int| self.publication_fault(publications[i]),
                0,
                publications.len() as int,
            ),
            first_of(
                stale(input.identity.admission != self.core.admission),
                first_of(
                    if input.tier == Tier::Hcq && self.units.hcq_failure is Some {
                        Some(fault_of(self.units.hcq_failure->0))
                    } else {
                        None
                    },
                    first_of(
                        stale(cursor != input.cursor),
                        if input.tier == Tier::Lcq {
                            None
                        } else {
                            first_of(
                                invalid(
                                    self.units.overlaps(input.instructions@),
                                    "HCQ overlap requires coordinated family replacement"@,
                                ),
                                first_of(
                                    first_fault(
                                        |i: int| self.image_fault(input.instructions@[i]),
                                        0,
                                        input.instructions@.len() as int,
                                    ),
                                    first_fault(
                                        |i: int| self.baseline_fault(publications[i]),
                                        0,
                                        publications.len() as int,
                                    ),
                                ),
                            )
                        },
                    ),
                ),
            ),
        )
    }

    pub(crate) fn check_publications(&self, publications: &Vec<Publication>) -> (r: Result<(), Error>)
        requires
            self.wf(),
        ensures
            faulted(
                r,
                first_fault(
                    |i: int| self.publication_fault(publications@[i]),
                    0,
                    publications@.len() as int,
                ),
            ),
            r is Ok ==> forall|i: int|
                0 <= i < publications@.len() ==> self.current(#[trigger] publications@[i]),
    {
        let ghost f = |i: int| self.publication_fault(publications@[i]);
        let ghost n = publications@.len() as int;
        let mut i: usize = 0;
        while i < publications.len()
            invariant
                i <= n,
                self.wf(),
                n == publications@.len(),
                f == (|i: int| self.publication_fault(publications@[i])),
                first_fault(f, 0, n) == first_fault(f, i as int, n),
                forall|j: int| 0 <= j < i ==> self.current(#[trigger] publications@[j]),
            decreases n - i,
        {
            assert(f(i as int) == self.publication_fault(publications@[i as int]));
            self.validate(&publications[i])?;
            i = i + 1;
        }
        Ok(())
    }

    /// A unit that the family relies on.
    pub open spec fn relied_on(
        &self,
        publications: Seq<Publication>,
        instructions: Seq<Instruction>,
        unit: Handle,
    ) -> bool {
        &&& self.units.records@.dom().contains(unit)
        &&& {
            ||| exists|i: int|
                0 <= i < instructions.len() && resident_image(
                    self.units.records@[unit],
                    #[trigger] instructions[i],
                )
            ||| exists|i: int|
                0 <= i < publications.len() && self.slots@[(
                #[trigger] publications[i]).slot].payload.lcq_of() is Some && is_unit(
                    self.units.records@[unit],
                    self.slots@[publications[i].slot].payload.lcq_of()->0,
                )
        }
    }

    /// Every instruction and every entry has a unit to fall back to.
    pub open spec fn covered(
        &self,
        publications: Seq<Publication>,
        instructions: Seq<Instruction>,
        baselines: Seq<Handle>,
    ) -> bool {
        &&& forall|k: int|
            0 <= k < baselines.len() ==> self.relied_on(
                publications,
                instructions,
                #[trigger] baselines[k],
            )
        &&& forall|i: int|
            0 <= i < instructions.len() ==> exists|k: int|
                0 <= k < baselines.len() && resident_image(
                    self.units.records@[#[trigger] baselines[k]],
                    #[trigger] instructions[i],
                )
        &&& forall|i: int|
            0 <= i < publications.len() ==> self.slots@[(
            #[trigger] publications[i]).slot].payload.lcq_of() is Some && exists|k: int|
                0 <= k < baselines.len() && is_unit(
                    self.units.records@[#[trigger] baselines[k]],
                    self.slots@[publications[i].slot].payload.lcq_of()->0,
                )
        &&& baselines.no_duplicates()
    }

    /// Collects the units that a family of these instructions and entries relies
    /// on.
    fn collect_baselines(&self, publications: &Vec<Publication>, input: &Input) -> (r: Result<
        Vec<Handle>,
        Error,
    >)
        requires
            self.wf(),
            forall|i: int|
                0 <= i < publications@.len() ==> self.current(#[trigger] publications@[i]),
        ensures
            match r {
                Ok(baselines) => {
                    &&& self.covered(publications@, input.instructions@, baselines@)
                    &&& first_of(
                        first_fault(
                            |i: int| self.image_fault(input.instructions@[i]),
                            0,
                            input.instructions@.len() as int,
                        ),
                        first_fault(
                            |i: int| self.baseline_fault(publications@[i]),
                            0,
                            publications@.len() as int,
                        ),
                    ) is None
                },
                Err(error) => first_of(
                    first_fault(
                        |i: int| self.image_fault(input.instructions@[i]),
                        0,
                        input.instructions@.len() as int,
                    ),
                    first_fault(
                        |i: int| self.baseline_fault(publications@[i]),
                        0,
                        publications@.len() as int,
                    ),
                ) == Some(fault_of(error)),
            },
    {
        let ghost f = |i: int| self.image_fault(input.instructions@[i]);
        let ghost g = |i: int| self.baseline_fault(publications@[i]);
        let ghost n = input.instructions@.len() as int;
        let ghost m = publications@.len() as int;
        let mut baselines: Vec<Handle> = Vec::new();
        let mut i: usize = 0;
        while i < input.instructions.len()
            invariant
                i <= n,
                n == input.instructions@.len(),
                f == (|i: int| self.image_fault(input.instructions@[i])),
                first_fault(f, 0, n) == first_fault(f, i as int, n),
                baselines@.no_duplicates(),
                forall|k: int|
                    0 <= k < baselines@.len() ==> self.relied_on(
                        publications@,
                        input.instructions@,
                        #[trigger] baselines@[k],
                    ),
                forall|j: int|
                    0 <= j < i ==> exists|k: int|
                        0 <= k < baselines@.len() && resident_image(
                            self.units.records@[#[trigger] baselines@[k]],
                            #[trigger] input.instructions@[j],
                        ),
            decreases n - i,
        {
            let instruction = input.instructions[i];
            assert(f(i as int) == self.image_fault(input.instructions@[i as int]));
            let unit = match self.units.find_image(instruction) {
                Some(unit) => unit,
                None => {
                    return Err(
                        Error::InvalidUnit("HCQ instruction has no matching resident LCQ image"),
                    );
                },
            };
            proof {
                assert(self.units.records@.dom().contains(unit));
                assert(resident_image(self.units.records@[unit], input.instructions@[i as int]));
            }
            let ghost before = baselines@;
            if !holds_handle(&baselines, unit) {
                baselines.push(unit);
            }
            proof {
                lemma_joined(before, baselines@, unit);
                assert forall|j: int| 0 <= j < i + 1 implies exists|k: int|
                    0 <= k < baselines@.len() && resident_image(
                        self.units.records@[#[trigger] baselines@[k]],
                        #[trigger] input.instructions@[j],
                    ) by {
                    if j < i {
                        let k = choose|k: int|
                            0 <= k < before.len() && resident_image(
                                self.units.records@[#[trigger] before[k]],
                                input.instructions@[j],
                            );
                        assert(baselines@[k] == before[k]);
                    } else {
                        let k = choose|k: int| 0 <= k < baselines@.len() && baselines@[k] == unit;
                        assert(baselines@[k] == unit);
                    }
                }
            }
            i = i + 1;
        }
        let mut p: usize = 0;
        while p < publications.len()
            invariant
                p <= m,
                m == publications@.len(),
                n == input.instructions@.len(),
                self.wf(),
                forall|i: int|
                    0 <= i < publications@.len() ==> self.current(#[trigger] publications@[i]),
                f == (|i: int| self.image_fault(input.instructions@[i])),
                g == (|i: int| self.baseline_fault(publications@[i])),
                first_fault(f, 0, n) is None,
                first_fault(g, 0, m) == first_fault(g, p as int, m),
                baselines@.no_duplicates(),
                forall|k: int|
                    0 <= k < baselines@.len() ==> self.relied_on(
                        publications@,
                        input.instructions@,
                        #[trigger] baselines@[k],
                    ),
                forall|j: int|
                    0 <= j < n ==> exists|k: int|
                        0 <= k < baselines@.len() && resident_image(
                            self.units.records@[#[trigger] baselines@[k]],
                            #[trigger] input.instructions@[j],
                        ),
                forall|j: int|
                    0 <= j < p ==> self.slots@[(
                    #[trigger] publications@[j]).slot].payload.lcq_of() is Some && exists|k: int|
                        0 <= k < baselines@.len() && is_unit(
                            self.units.records@[#[trigger] baselines@[k]],
                            self.slots@[publications@[j].slot].payload.lcq_of()->0,
                        ),
            decreases m - p,
        {
            let slot = publications[p].slot;
            assert(g(p as int) == self.baseline_fault(publications@[p as int]));
            assert(self.current(publications@[p as int]));
            let lcq = match self.slots.get(slot) {
                Some(found) => found.payload.lcq(),
                None => None,
            };
            let lcq = match lcq {
                Some(lcq) => lcq,
                None => {
                    return Err(Error::InvalidUnit("HCQ entry has no resident LCQ baseline"));
                },
            };
            let unit = match self.units.find_published(lcq) {
                Some(unit) => unit,
                None => {
                    return Err(Error::StalePublication);
                },
            };
            proof {
                assert(self.units.records@.dom().contains(unit));
                assert(is_unit(
                    self.units.records@[unit],
                    self.slots@[publications@[p as int].slot].payload.lcq_of()->0,
                ));
            }
            let ghost before = baselines@;
            if !holds_handle(&baselines, unit) {
                baselines.push(unit);
            }
            proof {
                lemma_joined(before, baselines@, unit);
                assert forall|j: int| 0 <= j < n implies exists|k: int|
                    0 <= k < baselines@.len() && resident_image(
                        self.units.records@[#[trigger] baselines@[k]],
                        #[trigger] input.instructions@[j],
                    ) by {
                    let k = choose|k: int|
                        0 <= k < before.len() && resident_image(
                            self.units.records@[#[trigger] before[k]],
                            input.instructions@[j],
                        );
                    assert(baselines@[k] == before[k]);
                }
                assert forall|j: int| 0 <= j < p + 1 implies self.slots@[(
                #[trigger] publications@[j]).slot].payload.lcq_of() is Some && exists|k: int|
                    0 <= k < baselines@.len() && is_unit(
                        self.units.records@[#[trigger] baselines@[k]],
                        self.slots@[publications@[j].slot].payload.lcq_of()->0,
                    ) by {
                    if j < p {
                        let k = choose|k: int|
                            0 <= k < before.len() && is_unit(
                                self.units.records@[#[trigger] before[k]],
                                self.slots@[publications@[j].slot].payload.lcq_of()->0,
                            );
                        assert(baselines@[k] == before[k]);
                    } else {
                        let k = choose|k: int| 0 <= k < baselines@.len() && baselines@[k] == unit;
                        assert(baselines@[k] == unit);
                    }
                }
            }
            p = p + 1;
        }
        Ok(baselines)
    }
}

proof fn lemma_joined(before: Seq<Handle>, after: Seq<Handle>, unit: Handle)
    requires
        before.no_duplicates(),
        after == if before.contains(unit) {
            before
        } else {
            before.push(unit)
        },
    ensures
        after.no_duplicates(),
        after.contains(unit),
        before.len() <= after.len(),
        forall|k: int| 0 <= k < before.len() ==> #[trigger] after[k] == before[k],
{
    if !before.contains(unit) {
        assert(after[before.len() as int] == unit);
    }
}

/// The records with another number of pins on the units in the list.
pub open spec fn pinned(
    before: Map<Handle, UnitRecord>,
    after: Map<Handle, UnitRecord>,
    units: Seq<Handle>,
    up: bool,
) -> bool {
    &&& after.dom() == before.dom()
    &&& forall|unit: Handle| #[trigger]
        before.dom().contains(unit) ==> after[unit] == if units.contains(unit) {
            UnitRecord {
                pins: if up {
                    count_up(before[unit].pins)
                } else {
                    count_down(before[unit].pins)
                },
                ..before[unit]
            }
        } else {
            before[unit]
        }
}

impl Lifetime {
    /// Adds a pin to each unit of the list, or takes one away.
    pub(crate) fn pin(&mut self, units: &Vec<Handle>, up: bool)
        requires
            old(self).wf(),
            units@.no_duplicates(),
        ensures
            final(self).wf(),
            pinned(old(self).units.records@, final(self).units.records@, units@, up),
            final(self).units.records.newest() == old(self).units.records.newest(),
            final(self).units.records.charged() == old(self).units.records.charged(),
            final(self).units.records.held() == old(self).units.records.held(),
            *final(self) == (Lifetime {
                units: Units { records: final(self).units.records, ..old(self).units },
                ..*old(self)
            }),
    {
        let mut k: usize = 0;
        proof {
            assert(units@.take(0) =~= Seq::<Handle>::empty());
        }
        while k < units.len()
            invariant
                k <= units@.len(),
                units@.no_duplicates(),
                self.wf(),
                pinned(old(self).units.records@, self.units.records@, units@.take(k as int), up),
                self.units.records.newest() == old(self).units.records.newest(),
                self.units.records.charged() == old(self).units.records.charged(),
                self.units.records.held() == old(self).units.records.held(),
                *self == (Lifetime {
                    units: Units { records: self.units.records, ..old(self).units },
                    ..*old(self)
                }),
            decreases units@.len() - k,
        {
            let unit = units[k];
            let ghost before = self.units.records@;
            if let Some(record) = self.units.records.get(unit) {
                let lifecycle = record.lifecycle;
                let retirement = record.retirement;
                let snapshots: usize = record.snapshots;
                let pins: usize = if up {
                    increment(record.pins)
                } else {
                    decrement(record.pins)
                };
                proof {
                    assert(self.units.records@.dom().contains(unit));
                }
                self.amend(unit, lifecycle, retirement, snapshots, pins);
            }
            proof {
                let taken = units@.take(k as int);
                let next = units@.take(k + 1);
                assert(next =~= taken.push(unit));
                assert(!taken.contains(unit)) by {
                    if taken.contains(unit) {
                        let j = choose|j: int| 0 <= j < taken.len() && taken[j] == unit;
                        assert(units@[j] == units@[k as int]);
                    }
                }
                assert forall|other: Handle| next.contains(other) <==> taken.contains(other)
                    || other == unit by {
                    if next.contains(other) && other != unit {
                        let j = choose|j: int| 0 <= j < next.len() && next[j] == other;
                        assert(taken[j] == other);
                    }
                    if taken.contains(other) {
                        let j = choose|j: int| 0 <= j < taken.len() && taken[j] == other;
                        assert(next[j] == other);
                    }
                    assert(next[k as int] == unit);
                }
                assert(self.units.records@.dom() =~= old(self).units.records@.dom());
            }
            k = k + 1;
        }
        proof {
            assert(units@.take(units@.len() as int) =~= units@);
        }
    }

    /// Epoch at which the segment's table was installed.
    pub open spec fn installed_at(&self, segment: int) -> Option<u64> {
        match self.units.tables@[segment] {
            Some(table) => Some(table.installed),
            None => None,
        }
    }

    pub open spec fn intervals_at(&self, segment: int) -> Seq<Interval> {
        match self.units.tables@[segment] {
            Some(table) => table.intervals@,
            None => Seq::empty(),
        }
    }

    /// The segment's table is of another generation than the unit.
    pub open spec fn regenerated(&self, input: Input) -> bool {
        self.units.tables@[input.code.allocation.segment as int] matches Some(table)
            && table.generation != input.code.allocation.generation
    }

    fn is_regenerated(&self, input: &Input) -> (r: bool)
        requires
            self.wf(),
            input.code.wf(),
        ensures
            r == self.regenerated(*input),
    {
        match &self.units.tables[input.code.allocation.segment] {
            None => false,
            Some(table) => table.generation != input.code.allocation.generation,
        }
    }

    /// The length of the segment's table, unless the unit overlaps it.
    fn apart_from_table(&self, input: &Input) -> (r: Option<usize>)
        requires
            self.wf(),
            input.code.wf(),
            faults_ordered(*input),
        ensures
            ({
                let intervals = self.intervals_at(input.code.allocation.segment as int);
                r == if code_overlaps(*input, intervals) {
                    None
                } else {
                    Some(intervals.len() as usize)
                }
            }),
            r matches Some(count) ==> count == self.intervals_at(
                input.code.allocation.segment as int,
            ).len(),
    {
        let segment: usize = input.code.allocation.segment;
        proof {
            assert(self.units.attributes(segment as int));
        }
        match &self.units.tables[segment] {
            None => Some(0),
            Some(table) => match extend_intervals(
                &table.intervals,
                input,
                Handle { index: 0, generation: 0 },
            ) {
                Some(_) => Some(table.intervals.len()),
                None => None,
            },
        }
    }

    fn check_admission(&self, publications: &Vec<Publication>, input: &Input, cursor: u64) -> (r:
        Result<Vec<Handle>, Error>)
        requires
            self.wf(),
        ensures
            match r {
                Ok(baselines) => {
                    &&& self.admission_fault(publications@, *input, cursor) is None
                    &&& input.tier == Tier::Hcq ==> self.covered(
                        publications@,
                        input.instructions@,
                        baselines@,
                    )
                    &&& baselines@.no_duplicates()
                    &&& input.tier == Tier::Lcq ==> baselines@.len() == 0
                    &&& forall|i: int|
                        0 <= i < publications@.len() ==> self.current(#[trigger] publications@[i])
                },
                Err(error) => self.admission_fault(publications@, *input, cursor) == Some(
                    fault_of(error),
                ),
            },
    {
        proof {
            reveal(Lifetime::admission_fault);
        }
        self.check_publications(publications)?;
        if input.identity.admission != self.core.admission {
            return Err(Error::StalePublication);
        }
        if input.tier == Tier::Hcq {
            if let Some(error) = self.units.hcq_failure {
                return Err(error);
            }
        }
        if cursor != input.cursor {
            return Err(Error::StalePublication);
        }
        if input.tier == Tier::Lcq {
            return Ok(Vec::new());
        }
        if self.units.overlaps_family(&input.instructions) {
            return Err(Error::InvalidUnit("HCQ overlap requires coordinated family replacement"));
        }
        self.collect_baselines(publications, input)
    }
}

/// Bytes of `count` items after something of `first` bytes, or more than any budget
/// allows.
pub open spec fn list_bytes(first: usize, count: int, item: usize) -> int {
    capped(first + count * item)
}

pub(crate) fn list_size(first: usize, count: usize, item: usize) -> (r: usize)
    ensures
        r == list_bytes(first, count as int, item),
{
    proof {
        assert(0 <= count * item) by (nonlinear_arith)
            requires
                0 <= count,
                0 <= item,
        ;
    }
    first.saturating_add(capped_product(count, item))
}

/// The most units that a family can rely on.
pub open spec fn baseline_room(input: Input, count: int) -> int {
    if input.tier == Tier::Hcq {
        capped(input.instructions@.len() + count)
    } else {
        0
    }
}

/// Bytes that are charged before a preparation is checked: the publications, their
/// payloads, and room for the units that a family relies on.
pub open spec fn working_bytes(input: Input, count: int) -> Seq<int> {
    seq![
        list_bytes(0, count, core::mem::size_of::<Publication>()),
        list_bytes(0, count, core::mem::size_of::<DispatchPayload>()),
        list_bytes(0, baseline_room(input, count), core::mem::size_of::<Handle>()),
    ]
}

pub open spec fn table_bytes(input: Input, intervals: int) -> int {
    list_bytes(
        core::mem::size_of::<Table>(),
        capped(intervals + input.faults@.len()),
        core::mem::size_of::<Interval>(),
    )
}

pub open spec fn family_bytes(baselines: int) -> int {
    list_bytes(core::mem::size_of::<Family>(), baselines, core::mem::size_of::<Handle>())
}

pub open spec fn slots_bytes(count: int) -> int {
    list_bytes(0, count, core::mem::size_of::<Handle>())
}

/// Bytes of the list of the payloads that a unit will publish.
pub open spec fn boxes_bytes(count: int) -> int {
    list_bytes(0, count, core::mem::size_of::<Option<Box<DispatchPayload>>>())
}

/// What is charged last, one after the other: each payload that the unit will
/// publish, their list, and the list of slots.
pub open spec fn list_charges(count: int) -> Seq<int> {
    Seq::new(count as nat, |i: int| payload_bytes()).push(boxes_bytes(count)).push(
        slots_bytes(count),
    )
}

/// Why a preparation is refused.
pub ghost enum PreparationFault {
    Unit(UnitFault),
    Charge(ChargeFault),
    /// Numbers of this kind ran out.
    Number(Seq<char>),
}

impl PreparationFault {
    pub open spec fn reported_by(self, error: Error) -> bool {
        match self {
            PreparationFault::Unit(fault) => fault == fault_of(error),
            PreparationFault::Charge(fault) => reports(fault, error),
            PreparationFault::Number(name) => exhausted(error, name),
        }
    }
}

pub open spec fn uncharged(fault: Option<ChargeFault>) -> Option<PreparationFault> {
    match fault {
        Some(fault) => Some(PreparationFault::Charge(fault)),
        None => None,
    }
}

/// The first of two faults.
pub open spec fn earlier(
    first: Option<PreparationFault>,
    second: Option<PreparationFault>,
) -> Option<PreparationFault> {
    if first is Some {
        first
    } else {
        second
    }
}

impl Lifetime {
    /// Storage for the checks of a preparation is refused.
    #[verifier::opaque]
    pub open spec fn working_fault(&self, input: Input, count: int) -> Option<PreparationFault> {
        let bytes = working_bytes(input, count);
        earlier(
            uncharged(charge_fault(self.cache, bytes[0], input.tier)),
            earlier(
                uncharged(charge_fault(self.cache.charged(bytes[0]), bytes[1], input.tier)),
                uncharged(
                    charge_fault(self.cache.charged(bytes[0] + bytes[1]), bytes[2], input.tier),
                ),
            ),
        )
    }

    /// A number that the preparation needs ran out.
    #[verifier::opaque]
    pub open spec fn number_fault(&self, tier: Tier, count: int) -> Option<PreparationFault> {
        if tier == Tier::Hcq && self.units.family_ids.last() == u64::MAX {
            Some(PreparationFault::Number("HcqFamilyId"@))
        } else if tier == Tier::Hcq && self.units.family_versions.last() == u64::MAX {
            Some(PreparationFault::Number("FamilyVersion"@))
        } else if self.reachabilities.last() + count > u64::MAX {
            Some(PreparationFault::Number("ReachabilityVersion"@))
        } else {
            None
        }
    }

    /// Storage of the unit or its table is refused, with `owed` bytes charged
    /// before, or its code overlaps code that is published.
    #[verifier::opaque]
    pub open spec fn code_fault(&self, input: Input, owed: int) -> Option<PreparationFault> {
        let intervals = self.intervals_at(input.code.allocation.segment as int);
        let unit = capped(input.metadata_size());
        earlier(
            uncharged(charge_fault(self.cache.charged(owed), unit, input.tier)),
            if code_overlaps(input, intervals) {
                Some(
                    PreparationFault::Unit(
                        UnitFault::Invalid("native fault intervals overlap published code"@),
                    ),
                )
            } else {
                uncharged(
                    charge_fault(
                        self.cache.charged(owed + unit),
                        table_bytes(input, intervals.len() as int),
                        input.tier,
                    ),
                )
            },
        )
    }

    /// Storage of the family, of the payloads or of the list of slots is refused. `owed`
    /// bytes are charged before, of which `room` are returned after the family.
    #[verifier::opaque]
    pub open spec fn list_fault(
        &self,
        tier: Tier,
        owed: int,
        room: int,
        count: int,
        baselines: int,
    ) -> Option<PreparationFault> {
        if tier == Tier::Hcq {
            earlier(
                uncharged(charge_fault(self.cache.charged(owed), family_bytes(baselines), tier)),
                uncharged(
                    charges_fault(
                        self.cache.charged(owed + family_bytes(baselines) - room),
                        list_charges(count),
                        tier,
                    ),
                ),
            )
        } else {
            uncharged(charges_fault(self.cache.charged(owed - room), list_charges(count), tier))
        }
    }

    /// Storage of the unit is refused, or its code overlaps code that is published.
    pub open spec fn storage_fault(&self, input: Input, count: int, baselines: int) -> Option<
        PreparationFault,
    > {
        let bytes = working_bytes(input, count);
        let owed = bytes[0] + bytes[1] + bytes[2];
        let table = table_bytes(
            input,
            self.intervals_at(input.code.allocation.segment as int).len() as int,
        );
        earlier(
            self.code_fault(input, owed),
            self.list_fault(
                input.tier,
                owed + capped(input.metadata_size()) + table,
                bytes[2],
                count,
                baselines,
            ),
        )
    }

    /// Why the preparation of a valid unit is refused, with storage for one more
    /// unit at hand. `baselines` is the number of units that its family relies on.
    pub open spec fn preparation_fault(
        &self,
        publications: Seq<Publication>,
        input: Input,
        cursor: u64,
        baselines: int,
    ) -> Option<PreparationFault> {
        let count = publications.len() as int;
        earlier(
            self.working_fault(input, count),
            earlier(
                match self.admission_fault(publications, input, cursor) {
                    Some(fault) => Some(PreparationFault::Unit(fault)),
                    None => None,
                },
                earlier(
                    self.number_fault(input.tier, count),
                    if self.regenerated(input) {
                        Some(PreparationFault::Unit(UnitFault::Stale))
                    } else {
                        self.storage_fault(input, count, baselines)
                    },
                ),
            ),
        )
    }
}

/// `bytes` more are charged than at the start.
spec fn owes(start: Cache, cache: Cache, bytes: int) -> bool {
    &&& 0 <= bytes
    &&& cache == start.charged(bytes)
    &&& cache.leased == start.leased + bytes
    &&& cache.usage.metadata == start.usage.metadata + bytes
    &&& start.failed ==> bytes == 0
}

proof fn lemma_owes_more(start: Cache, cache: Cache, owed: int, bytes: int, tier: Tier)
    requires
        cache.wf(),
        owes(start, cache, owed),
        0 <= bytes,
        charge_fault(cache, bytes, tier) is None,
    ensures
        owes(start, cache.charged(bytes), owed + bytes),
{
    lemma_charge_fits(cache, bytes, tier);
}

/// What is charged last, taken together.
proof fn lemma_list_sum(count: nat)
    ensures
        byte_sum(list_charges(count as int)) == count * payload_bytes() + boxes_bytes(count as int)
            + slots_bytes(count as int),
{
    let payloads = Seq::new(count, |i: int| payload_bytes());
    lemma_equal_sum(count, payload_bytes());
    let amount = payload_bytes();
    assert(payloads =~= Seq::new(count, |i: int| amount));
    let boxed = payloads.push(boxes_bytes(count as int));
    let all = list_charges(count as int);
    assert(boxed.drop_last() =~= payloads);
    assert(all.drop_last() =~= boxed);
    assert(byte_sum(boxed) == byte_sum(payloads) + boxes_bytes(count as int));
    assert(byte_sum(all) == byte_sum(boxed) + slots_bytes(count as int));
    assert(byte_sum(payloads) == count * amount);
}

proof fn lemma_equal_sum(count: nat, amount: int)
    ensures
        byte_sum(Seq::new(count, |i: int| amount)) == count * amount,
    decreases count,
{
    let all = Seq::new(count, |i: int| amount);
    if count == 0 {
        assert(count * amount == 0) by (nonlinear_arith)
            requires
                count == 0,
        ;
    } else {
        let fewer = (count - 1) as nat;
        lemma_equal_sum(fewer, amount);
        assert(all.drop_last() =~= Seq::new(fewer, |i: int| amount));
        assert(count * amount == fewer * amount + amount) by (nonlinear_arith)
            requires
                count == fewer + 1,
        ;
    }
}

proof fn lemma_owes_less(start: Cache, cache: Cache, owed: int, bytes: int)
    requires
        owes(start, cache, owed),
        0 <= bytes <= owed,
        owed <= usize::MAX,
    ensures
        owes(start, refunded(cache, bytes), owed - bytes),
{
    assert(cache.failed == start.failed);
    if !cache.failed {
        assert(cache.returnable(bytes) == bytes);
        assert(refunded(cache, bytes) == start.charged(owed - bytes));
    } else {
        assert(bytes == 0);
    }
}

/// What the slot of entry `i` will publish: the unit's entry in its own tier, and
/// what the slot has in the other.
pub open spec fn publishes_entry(
    old_payload: DispatchPayload,
    payload: DispatchPayload,
    unit: CodeUnit,
    family: Option<PreparedFamily>,
    i: int,
) -> bool {
    match family {
        Some(family) => {
            &&& payload.lcq_of() == old_payload.lcq_of()
            &&& payload.hcq_of() matches Some(hcq)
            &&& unit.publishes(unit.input.entries@[i], hcq.entry)
            &&& hcq.family == family.id
            &&& hcq.family_version == family.version
        },
        None => {
            &&& payload.hcq_of() == old_payload.hcq_of()
            &&& payload.lcq_of() matches Some(lcq)
            &&& unit.publishes(unit.input.entries@[i], lcq)
        },
    }
}

impl Lifetime {
    fn prepare_payloads(
        &self,
        publications: &Vec<Publication>,
        unit: &CodeUnit,
        family: &Option<PreparedFamily>,
        versions: &Vec<ReachabilityVersion>,
    ) -> (r: Vec<DispatchPayload>)
        requires
            self.wf(),
            unit.input.code.wf(),
            publications@.len() == unit.input.entries@.len(),
            versions@.len() == publications@.len(),
            forall|i: int|
                0 <= i < publications@.len() ==> self.slots@.dom().contains(
                    (#[trigger] publications@[i]).slot,
                ),
            forall|i: int|
                0 <= i < unit.input.entries@.len() ==> (
                #[trigger] unit.input.entries@[i]).canonical_offset
                    < unit.input.code.allocation.span.len && unit.input.entries@[i].fast_offset
                    < unit.input.code.allocation.span.len,
        ensures
            r@.len() == publications@.len(),
            forall|i: int|
                0 <= i < r@.len() ==> (#[trigger] r@[i]).reachability_of() == versions@[i]
                    && publishes_entry(
                    self.slots@[publications@[i].slot].payload,
                    r@[i],
                    *unit,
                    *family,
                    i,
                ),
    {
        let mut r: Vec<DispatchPayload> = Vec::new();
        let mut i: usize = 0;
        while i < publications.len()
            invariant
                i <= publications@.len(),
                r@.len() == i,
                self.wf(),
                unit.input.code.wf(),
                publications@.len() == unit.input.entries@.len(),
                versions@.len() == publications@.len(),
                forall|i: int|
                    0 <= i < publications@.len() ==> self.slots@.dom().contains(
                        (#[trigger] publications@[i]).slot,
                    ),
                forall|i: int|
                    0 <= i < unit.input.entries@.len() ==> (
                    #[trigger] unit.input.entries@[i]).canonical_offset
                        < unit.input.code.allocation.span.len && unit.input.entries@[i].fast_offset
                        < unit.input.code.allocation.span.len,
                forall|j: int|
                    0 <= j < i ==> (#[trigger] r@[j]).reachability_of() == versions@[j]
                        && publishes_entry(
                        self.slots@[publications@[j].slot].payload,
                        r@[j],
                        *unit,
                        *family,
                        j,
                    ),
            decreases publications@.len() - i,
        {
            assert(self.slots@.dom().contains(publications@[i as int].slot));
            assert(unit.input.entries@[i as int].canonical_offset
                < unit.input.code.allocation.span.len);
            let entry = unit.entry(&unit.input.entries[i]);
            if let Some(slot) = self.slots.get(publications[i].slot) {
                if let Some(entry) = entry {
                    let payload = match family {
                        Some(family) => DispatchPayload::new(
                            versions[i],
                            slot.payload.lcq(),
                            Some(
                                HcqEntry {
                                    entry,
                                    family: family.id,
                                    family_version: family.version,
                                },
                            ),
                        ),
                        None => DispatchPayload::new(versions[i], Some(entry), slot.payload.hcq()),
                    };
                    r.push(payload);
                }
            }
            i = i + 1;
        }
        r
    }

    /// One more charge. Where it is refused, the `owed` bytes that were charged for
    /// the same purpose are returned.
    fn charge_more(&mut self, owed: usize, bytes: usize, tier: Tier) -> (r: Result<usize, Error>)
        requires
            old(self).cache.wf(),
            owed <= old(self).cache.leased,
        ensures
            *final(self) == (Lifetime { cache: final(self).cache, ..*old(self) }),
            final(self).cache.wf(),
            match charge_fault(old(self).cache, bytes as int, tier) {
                None => {
                    &&& r matches Ok(now) && now == owed + bytes
                    &&& final(self).cache == old(self).cache.charged(bytes as int)
                },
                Some(fault) => {
                    &&& r matches Err(error) && reports(fault, error)
                    &&& final(self).cache == refunded(old(self).cache, owed as int)
                },
            },
    {
        match self.charge(bytes, tier) {
            Ok(lease) => {
                proof {
                    lemma_charge_fits(old(self).cache, bytes as int, tier);
                }
                Ok(owed + lease.bytes)
            },
            Err(error) => {
                self.refund(MetadataLease { bytes: owed });
                Err(error)
            },
        }
    }

    /// Numbers for the payloads. Where they run out, none is left.
    fn payload_versions(&mut self, count: usize) -> (r: Result<Vec<ReachabilityVersion>, Error>)
        requires
            old(self).wf(),
        ensures
            final(self).wf(),
            *final(self) == (Lifetime { reachabilities: final(self).reachabilities, ..*old(self) }),
            r is Ok <==> old(self).reachabilities.last() + count <= u64::MAX,
            match r {
                Ok(versions) => {
                    &&& versions@.len() == count
                    &&& final(self).reachabilities.last() == old(self).reachabilities.last() + count
                    &&& forall|k: int|
                        0 <= k < count ==> (#[trigger] versions@[k]).id() == old(
                            self,
                        ).reachabilities.last() + 1 + k
                },
                Err(error) => {
                    &&& exhausted(error, "ReachabilityVersion"@)
                    &&& final(self).reachabilities.last() == u64::MAX
                },
            },
    {
        let mut versions: Vec<ReachabilityVersion> = Vec::new();
        while versions.len() < count
            invariant
                versions@.len() <= count,
                old(self).wf(),
                *self == (Lifetime { reachabilities: self.reachabilities, ..*old(self) }),
                self.reachabilities.last() == old(self).reachabilities.last() + versions@.len(),
                forall|k: int|
                    0 <= k < versions@.len() ==> (#[trigger] versions@[k]).id() == old(
                        self,
                    ).reachabilities.last() + 1 + k,
            decreases count - versions@.len(),
        {
            match self.reachabilities.next_id() {
                Ok(version) => {
                    versions.push(version);
                },
                Err(error) => {
                    proof {
                        lemma_units_alike(*old(self), *self);
                    }
                    return Err(Error::Exhausted(error));
                },
            }
        }
        proof {
            lemma_units_alike(*old(self), *self);
        }
        Ok(versions)
    }

    /// A valid unit is prepared: what it will publish is made out, and the units it
    /// relies on are promised to stay.
    pub open spec fn prepares(
        &self,
        after: Lifetime,
        publications: Seq<Publication>,
        input: Input,
        cursor: u64,
        prepared: PreparedUnit,
    ) -> bool {
        let segment = input.code.allocation.segment as int;
        &&& self.admission_fault(publications, input, cursor) is None
        &&& self.number_fault(input.tier, publications.len() as int) is None
        &&& !self.regenerated(input)
        &&& !code_overlaps(input, self.intervals_at(segment))
        &&& prepared.wf()
        &&& prepared.publications@ == publications
        &&& prepared.unit == (CodeUnit {
            id: input.identity.id,
            version: input.identity.version,
            abi_version: NATIVE_ABI_VERSION,
            input,
        })
        &&& prepared.previous == self.installed_at(segment)
        &&& after.core == self.core
        &&& after.units.hcq_failure == self.units.hcq_failure
        &&& after.reachabilities.last() == self.reachabilities.last() + publications.len()
        &&& after.units.borrowers@ == if prepared.previous is Some {
            self.units.borrowers@.update(segment, count_up(self.units.borrowers@[segment]))
        } else {
            self.units.borrowers@
        }
        &&& forall|i: int|
            0 <= i < publications.len() ==> (#[trigger] prepared.payloads@[i]).reachability_of().id()
                == self.reachabilities.last() + 1 + i && publishes_entry(
                self.slots@[publications[i].slot].payload,
                prepared.payloads@[i],
                prepared.unit,
                prepared.family,
                i,
            )
        &&& match prepared.family {
            Some(family) => {
                &&& self.covered(publications, input.instructions@, family.baselines@)
                &&& pinned(
                    self.units.records@,
                    after.units.records@,
                    family.baselines@,
                    true,
                )
                &&& family.id.id() == self.units.family_ids.last() + 1
                &&& family.version.id() == self.units.family_versions.last() + 1
            },
            None => after.units.records@ == self.units.records@,
        }
    }

    /// What is charged for a prepared unit, and to whom.
    pub open spec fn prepared_charges(&self, after: Cache, prepared: PreparedUnit) -> bool {
        let input = prepared.unit.input;
        let count = prepared.publications@.len() as int;
        let segment = input.code.allocation.segment as int;
        let bytes = working_bytes(input, count);
        &&& prepared.held.bytes == bytes[0] + count * payload_bytes() + boxes_bytes(count)
        &&& prepared.charge.bytes == capped(input.metadata_size()) + slots_bytes(count)
        &&& prepared.table_charge.bytes == table_bytes(
            input,
            self.intervals_at(segment).len() as int,
        )
        &&& prepared.family matches Some(family) ==> family.charge.bytes == family_bytes(
            family.baselines@.len() as int,
        )
        &&& after == self.cache.charged(prepared.total_charge())
        &&& after.leased == self.cache.leased + prepared.total_charge()
        &&& after.usage.metadata == self.cache.usage.metadata + prepared.total_charge()
    }

    /// A valid unit is refused with the error, and nothing is charged for it.
    pub open spec fn refuses(
        &self,
        after: Lifetime,
        publications: Seq<Publication>,
        input: Input,
        cursor: u64,
        error: Error,
    ) -> bool {
        &&& after.cache == self.cache
        &&& after.units.records@ == self.units.records@
        &&& after.units.borrowers@ == self.units.borrowers@
        &&& exists|baselines: Seq<Handle>| #[trigger]
            self.relies(publications, input, cursor, baselines) && (
            match self.preparation_fault(publications, input, cursor, baselines.len() as int) {
                None => false,
                Some(fault) => {
                    &&& fault.reported_by(error)
                    &&& if fault is Number {
                        publication_failed(*self, after, error, input.tier)
                    } else {
                        &&& after.core == self.core
                        &&& after.units.hcq_failure == self.units.hcq_failure
                    }
                },
            })
    }

    /// The units that a family of an admissible unit relies on. Without working
    /// storage they are not looked for.
    pub open spec fn relies(
        &self,
        publications: Seq<Publication>,
        input: Input,
        cursor: u64,
        baselines: Seq<Handle>,
    ) -> bool {
        if input.tier == Tier::Hcq && self.working_fault(input, publications.len() as int) is None
            && self.admission_fault(publications, input, cursor) is None {
            baselines.no_duplicates() && self.covered(publications, input.instructions@, baselines)
        } else {
            baselines.len() == 0
        }
    }

    /// Charges the working storage of a preparation.
    fn charge_work(&mut self, input: &Input, count: usize) -> (r: Result<(usize, usize), Error>)
        requires
            old(self).cache.wf(),
        ensures
            *final(self) == (Lifetime { cache: final(self).cache, ..*old(self) }),
            final(self).cache.wf(),
            match r {
                Ok((work, room)) => {
                    let bytes = working_bytes(*input, count as int);
                    &&& old(self).working_fault(*input, count as int) is None
                    &&& work == bytes[0] + bytes[1]
                    &&& room == bytes[2]
                    &&& owes(old(self).cache, final(self).cache, work + room)
                },
                Err(error) => {
                    &&& old(self).working_fault(*input, count as int) matches Some(fault)
                        && fault.reported_by(error) && !(fault is Number)
                    &&& final(self).cache == old(self).cache
                },
            },
    {
        proof {
            reveal(Lifetime::working_fault);
        }
        let tier = input.tier;
        let ghost start = self.cache;
        let publications: usize = list_size(0, count, core::mem::size_of::<Publication>());
        let payloads: usize = list_size(0, count, core::mem::size_of::<DispatchPayload>());
        let most: usize = if tier == Tier::Hcq {
            input.instructions.len().saturating_add(count)
        } else {
            0
        };
        let room: usize = list_size(0, most, core::mem::size_of::<Handle>());
        proof {
            assert(start.charged(0) == start);
            lemma_owes_less(start, start, 0, 0);
        }
        let owed: usize = self.charge_more(0, publications, tier)?;
        proof {
            lemma_owes_more(start, start, 0, publications as int, tier);
            lemma_owes_less(start, self.cache, owed as int, owed as int);
        }
        let work: usize = self.charge_more(owed, payloads, tier)?;
        proof {
            lemma_owes_more(
                start,
                start.charged(owed as int),
                owed as int,
                payloads as int,
                tier,
            );
            lemma_owes_less(start, self.cache, work as int, work as int);
        }
        let all: usize = self.charge_more(work, room, tier)?;
        proof {
            lemma_owes_more(start, start.charged(work as int), work as int, room as int, tier);
        }
        Ok((work, all - work))
    }

    /// Numbers for a unit that was admitted.
    fn number(&mut self, tier: Tier, count: usize) -> (r: Result<
        (Option<(HcqFamilyId, FamilyVersion)>, Vec<ReachabilityVersion>),
        Error,
    >)
        requires
            old(self).wf(),
        ensures
            final(self).wf(),
            *final(self) == (Lifetime {
                core: final(self).core,
                reachabilities: final(self).reachabilities,
                units: Units {
                    family_ids: final(self).units.family_ids,
                    family_versions: final(self).units.family_versions,
                    hcq_failure: final(self).units.hcq_failure,
                    ..old(self).units
                },
                ..*old(self)
            }),
            match old(self).number_fault(tier, count as int) {
                None => r is Ok,
                Some(fault) => r matches Err(error) && fault is Number && fault.reported_by(error)
                    && publication_failed(*old(self), *final(self), error, tier),
            },
            r matches Ok((family, versions)) ==> {
                &&& final(self).core == old(self).core
                &&& final(self).units.hcq_failure == old(self).units.hcq_failure
                &&& final(self).reachabilities.last() == old(self).reachabilities.last() + count
                &&& versions@.len() == count
                &&& forall|k: int|
                    0 <= k < count ==> (#[trigger] versions@[k]).id() == old(
                        self,
                    ).reachabilities.last() + 1 + k
                &&& (family is Some) == (tier == Tier::Hcq)
                &&& family matches Some((id, version)) ==> id.id() == old(
                    self,
                ).units.family_ids.last() + 1 && version.id() == old(
                    self,
                ).units.family_versions.last() + 1
            },
    {
        proof {
            reveal(Lifetime::number_fault);
        }
        let mut family: Option<(HcqFamilyId, FamilyVersion)> = None;
        if tier == Tier::Hcq {
            let id: HcqFamilyId = match self.units.family_ids.next_id() {
                Ok(id) => id,
                Err(error) => {
                    let error = Error::Exhausted(error);
                    proof {
                        lemma_units_alike(*old(self), *self);
                    }
                    self.publication_failure(error, tier);
                    return Err(error);
                },
            };
            let version: FamilyVersion = match self.units.family_versions.next_id() {
                Ok(version) => version,
                Err(error) => {
                    let error = Error::Exhausted(error);
                    proof {
                        lemma_units_alike(*old(self), *self);
                    }
                    self.publication_failure(error, tier);
                    return Err(error);
                },
            };
            family = Some((id, version));
        }
        proof {
            lemma_units_alike(*old(self), *self);
        }
        match self.payload_versions(count) {
            Ok(versions) => Ok((family, versions)),
            Err(error) => {
                self.publication_failure(error, tier);
                Err(error)
            },
        }
    }

    /// Charges a unit and its table, after the `before` bytes that were charged since
    /// the start. Gives the charge of the unit and that of the table.
    fn charge_code(&mut self, input: &Input, before: usize, Ghost(start): Ghost<Lifetime>) -> (r:
        Result<(usize, usize), Error>)
        requires
            old(self).wf(),
            input.code.wf(),
            faults_ordered(*input),
            owes(start.cache, old(self).cache, before as int),
            start.units.tables == old(self).units.tables,
        ensures
            *final(self) == (Lifetime { cache: final(self).cache, ..*old(self) }),
            final(self).cache.wf(),
            match r {
                Ok((unit, table)) => {
                    let intervals = start.intervals_at(input.code.allocation.segment as int);
                    &&& start.code_fault(*input, before as int) is None
                    &&& !code_overlaps(*input, intervals)
                    &&& table == table_bytes(*input, intervals.len() as int)
                    &&& unit == capped(input.metadata_size())
                    &&& before + unit + table <= usize::MAX
                    &&& owes(start.cache, final(self).cache, before + unit + table)
                },
                Err(error) => {
                    &&& start.code_fault(*input, before as int) matches Some(fault)
                        && fault.reported_by(error) && !(fault is Number)
                    &&& final(self).cache == start.cache
                },
            },
    {
        proof {
            reveal(Lifetime::code_fault);
        }
        let tier = input.tier;
        let ghost base = start.cache;
        let bytes: usize = input.metadata_bytes();
        proof {
            lemma_owes_less(base, self.cache, before as int, before as int);
            assert(base.charged(0) == base);
        }
        let owed: usize = self.charge_more(before, bytes, tier)?;
        proof {
            lemma_owes_more(base, base.charged(before as int), before as int, bytes as int, tier);
            lemma_owes_less(base, self.cache, owed as int, owed as int);
            lemma_units_alike(*old(self), *self);
        }
        let intervals: usize = match self.apart_from_table(input) {
            Some(intervals) => intervals,
            None => {
                self.refund(MetadataLease { bytes: owed });
                return Err(Error::InvalidUnit("native fault intervals overlap published code"));
            },
        };
        let table: usize = list_size(
            core::mem::size_of::<Table>(),
            intervals.saturating_add(input.faults.len()),
            core::mem::size_of::<Interval>(),
        );
        let all: usize = self.charge_more(owed, table, tier)?;
        proof {
            lemma_owes_more(base, base.charged(owed as int), owed as int, table as int, tier);
        }
        assert(all == before + bytes + table);
        Ok((bytes, table))
    }

    /// Charges a family, the payloads and the list of slots, after the `before` bytes
    /// that were charged since the start. The `room` for baselines is returned after
    /// the family, and `work` bytes at the end. Gives the charge of the family, that of
    /// the list of slots, and that of the payloads and their list.
    #[verifier::rlimit(40)]
    fn charge_lists(
        &mut self,
        tier: Tier,
        before: usize,
        room: usize,
        work: usize,
        count: usize,
        baselines: usize,
        Ghost(start): Ghost<Lifetime>,
    ) -> (r: Result<(usize, usize, usize), Error>)
        requires
            old(self).cache.wf(),
            owes(start.cache, old(self).cache, before as int),
            room + work <= before,
        ensures
            *final(self) == (Lifetime { cache: final(self).cache, ..*old(self) }),
            final(self).cache.wf(),
            match r {
                Ok((family, slots, boxes)) => {
                    &&& start.list_fault(
                        tier,
                        before as int,
                        room as int,
                        count as int,
                        baselines as int,
                    ) is None
                    &&& family == if tier == Tier::Hcq {
                        family_bytes(baselines as int)
                    } else {
                        0
                    }
                    &&& slots == slots_bytes(count as int)
                    &&& boxes == count * payload_bytes() + boxes_bytes(count as int)
                    &&& before - room - work + family + slots + boxes <= usize::MAX
                    &&& owes(
                        start.cache,
                        final(self).cache,
                        before - room - work + family + slots + boxes,
                    )
                },
                Err(error) => {
                    &&& start.list_fault(
                        tier,
                        before as int,
                        room as int,
                        count as int,
                        baselines as int,
                    ) matches Some(fault) && fault.reported_by(error) && !(fault is Number)
                    &&& final(self).cache == start.cache
                },
            },
    {
        proof {
            reveal(Lifetime::list_fault);
        }
        let ghost base = start.cache;
        let mut owed: usize = before;
        let mut family: usize = 0;
        proof {
            lemma_owes_less(base, self.cache, before as int, before as int);
            assert(base.charged(0) == base);
        }
        if tier == Tier::Hcq {
            family = list_size(
                core::mem::size_of::<Family>(),
                baselines,
                core::mem::size_of::<Handle>(),
            );
            owed = self.charge_more(before, family, tier)?;
            proof {
                lemma_owes_more(
                    base,
                    base.charged(before as int),
                    before as int,
                    family as int,
                    tier,
                );
            }
        }
        proof {
            lemma_owes_less(base, self.cache, owed as int, room as int);
        }
        self.refund(MetadataLease { bytes: room });
        let left: usize = owed - room;
        proof {
            lemma_owes_less(base, self.cache, left as int, left as int);
        }
        let payload: usize = bytes_of(1, core::mem::size_of::<DispatchSlot>());
        let boxes: usize = list_size(
            0,
            count,
            core::mem::size_of::<Option<Box<DispatchPayload>>>(),
        );
        let slots: usize = list_size(0, count, core::mem::size_of::<Handle>());
        let mut bytes: Vec<usize> = Vec::new();
        while bytes.len() < count
            invariant
                bytes@.len() <= count,
                forall|i: int| 0 <= i < bytes@.len() ==> #[trigger] bytes@[i] == payload,
            decreases count - bytes@.len(),
        {
            bytes.push(payload);
        }
        bytes.push(boxes);
        bytes.push(slots);
        let ghost kept = self.cache;
        proof {
            assert(amounts(bytes@) =~= list_charges(count as int));
            lemma_list_sum(count as nat);
        }
        self.charge_each(left, &bytes, tier)?;
        let ghost sum = byte_sum(list_charges(count as int));
        proof {
            assert(owes(base, self.cache, left + sum));
            lemma_owes_less(base, self.cache, left + sum, work as int);
            assert(count * payload + boxes + slots == sum);
            assert(0 <= count * payload) by (nonlinear_arith)
                requires
                    0 <= count,
                    0 <= payload,
            ;
        }
        self.refund(MetadataLease { bytes: work });
        let payloads: usize = count * payload;
        Ok((family, slots, payloads + boxes))
    }

    /// Makes out what a charged unit will publish, and promises that what it relies
    /// on stays.
    fn complete_preparation(
        &mut self,
        publications: Vec<Publication>,
        input: Input,
        family: Option<PreparedFamily>,
        versions: Vec<ReachabilityVersion>,
        charges: (MetadataLease, MetadataLease, MetadataLease),
    ) -> (r: PreparedUnit)
        requires
            old(self).wf(),
            input.code.wf(),
            input.fault(old(self).identity, old(self).cache_identity, publications@) is None,
            versions@.len() == publications@.len(),
            (family is Some) == (input.tier == Tier::Hcq),
            family matches Some(family) ==> family.baselines@.no_duplicates() && forall|k: int|
                0 <= k < family.baselines@.len() ==> old(self).units.records@.dom().contains(
                    #[trigger] family.baselines@[k],
                ),
            forall|i: int|
                0 <= i < publications@.len() ==> old(self).current(#[trigger] publications@[i]),
        ensures
            final(self).wf(),
            *final(self) == (Lifetime {
                units: Units {
                    records: final(self).units.records,
                    borrowers: final(self).units.borrowers,
                    ..old(self).units
                },
                ..*old(self)
            }),
            r.wf(),
            r.publications == publications,
            r.unit == (CodeUnit {
                id: input.identity.id,
                version: input.identity.version,
                abi_version: NATIVE_ABI_VERSION,
                input,
            }),
            r.family == family,
            r.previous == old(self).installed_at(input.code.allocation.segment as int),
            r.charge == charges.0,
            r.table_charge == charges.1,
            r.held == charges.2,
            forall|i: int|
                0 <= i < publications@.len() ==> (#[trigger] r.payloads@[i]).reachability_of()
                    == versions@[i] && publishes_entry(
                    old(self).slots@[publications@[i].slot].payload,
                    r.payloads@[i],
                    r.unit,
                    r.family,
                    i,
                ),
            final(self).units.borrowers@ == if r.previous is Some {
                let segment = input.code.allocation.segment as int;
                old(self).units.borrowers@.update(
                    segment,
                    count_up(old(self).units.borrowers@[segment]),
                )
            } else {
                old(self).units.borrowers@
            },
            match family {
                Some(family) => pinned(
                    old(self).units.records@,
                    final(self).units.records@,
                    family.baselines@,
                    true,
                ),
                None => final(self).units.records@ == old(self).units.records@,
            },
    {
        proof {
            lemma_faults_ordered(
                input,
                old(self).identity,
                old(self).cache_identity,
                publications@,
            );
            lemma_entries_distinct(
                input,
                old(self).identity,
                old(self).cache_identity,
                publications@,
            );
        }
        let segment: usize = input.code.allocation.segment;
        let previous: Option<u64> = match &self.units.tables[segment] {
            Some(table) => Some(table.installed),
            None => None,
        };
        let unit = CodeUnit {
            id: input.identity.id,
            version: input.identity.version,
            abi_version: NATIVE_ABI_VERSION,
            input,
        };
        proof {
            assert forall|i: int| 0 <= i < publications@.len() implies self.slots@.dom().contains(
                (#[trigger] publications@[i]).slot,
            ) by {
                assert(old(self).current(publications@[i]));
            }
            assert forall|i: int| 0 <= i < unit.input.entries@.len() implies (
            #[trigger] unit.input.entries@[i]).canonical_offset
                < unit.input.code.allocation.span.len && unit.input.entries@[i].fast_offset
                < unit.input.code.allocation.span.len by {
                law_valid_entries_lie_in_code(
                    unit.input,
                    old(self).identity,
                    old(self).cache_identity,
                    publications@,
                    i,
                );
            }
        }
        let payloads = self.prepare_payloads(&publications, &unit, &family, &versions);
        if let Some(family) = &family {
            self.pin(&family.baselines, true);
        }
        if previous.is_some() {
            let ghost promised = *self;
            let borrowed: usize = increment(self.units.borrowers[segment]);
            self.units.borrowers.set(segment, borrowed);
            proof {
                lemma_units_alike(promised, *self);
            }
        }
        let (charge, table_charge, held) = charges;
        PreparedUnit { publications, unit, family, previous, payloads, charge, table_charge, held }
    }

    /// Prepares a valid unit, with storage for one more unit at hand.
    #[verifier::rlimit(80)]
    fn prepare_ready(&mut self, publications: Vec<Publication>, input: Input, cursor: u64) -> (r:
        Result<PreparedUnit, (Input, Error)>)
        requires
            old(self).wf(),
            input.code.wf(),
            input.fault(old(self).identity, old(self).cache_identity, publications@) is None,
        ensures
            final(self).wf(),
            numbered(*old(self), *final(self)),
            match r {
                Ok(prepared) => {
                    &&& old(self).preparation_fault(
                        publications@,
                        input,
                        cursor,
                        prepared.reliance(),
                    ) is None
                    &&& old(self).prepares(*final(self), publications@, input, cursor, prepared)
                    &&& old(self).prepared_charges(final(self).cache, prepared)
                },
                Err((returned, error)) => {
                    &&& returned == input
                    &&& old(self).refuses(*final(self), publications@, input, cursor, error)
                },
            },
    {
        proof {
            lemma_faults_ordered(
                input,
                old(self).identity,
                old(self).cache_identity,
                publications@,
            );
            lemma_entries_distinct(
                input,
                old(self).identity,
                old(self).cache_identity,
                publications@,
            );
        }
        let ghost start = *self;
        let ghost none = Seq::<Handle>::empty();
        let count: usize = publications.len();
        let (work, room) = match self.charge_work(&input, count) {
            Ok(charged) => charged,
            Err(error) => {
                proof {
                    assert(start.relies(publications@, input, cursor, none));
                    lemma_units_alike(start, *self);
                }
                return Err((input, error));
            },
        };
        proof {
            lemma_units_alike(start, *self);
            lemma_same_admission(start, *self, publications@, input, cursor);
            lemma_owes_less(start.cache, self.cache, work + room, work + room);
            assert(start.cache.charged(0) == start.cache);
        }
        let baselines = match self.check_admission(&publications, &input, cursor) {
            Ok(baselines) => baselines,
            Err(error) => {
                self.refund(MetadataLease { bytes: work + room });
                proof {
                    assert(start.relies(publications@, input, cursor, none));
                    lemma_units_alike(start, *self);
                }
                return Err((input, error));
            },
        };
        proof {
            if input.tier == Tier::Lcq {
                assert(start.relies(publications@, input, cursor, none));
            }
            assert(input.tier == Tier::Hcq ==> start.relies(publications@, input, cursor, baselines@));
        }
        let baseline_count: usize = baselines.len();
        proof {
            assert(start.number_fault(input.tier, count as int) == self.number_fault(
                input.tier,
                count as int,
            )) by {
                reveal(Lifetime::number_fault);
            }
        }
        let (numbers, versions) = match self.number(input.tier, count) {
            Ok(numbers) => numbers,
            Err(error) => {
                let ghost failed = *self;
                self.refund(MetadataLease { bytes: work + room });
                proof {
                    lemma_units_alike(failed, *self);
                }
                return Err((input, error));
            },
        };
        let ghost numbered = *self;
        if self.is_regenerated(&input) {
            self.refund(MetadataLease { bytes: work + room });
            proof {
                lemma_units_alike(numbered, *self);
            }
            return Err((input, Error::StalePublication));
        }
        let (unit_bytes, table) = match self.charge_code(&input, work + room, Ghost(start)) {
            Ok(charged) => charged,
            Err(error) => {
                proof {
                    lemma_units_alike(numbered, *self);
                }
                return Err((input, error));
            },
        };
        let payloads: usize = list_size(0, count, core::mem::size_of::<DispatchPayload>());
        let (family_bytes, slots, boxes) = match self.charge_lists(
            input.tier,
            work + room + unit_bytes + table,
            room,
            payloads,
            count,
            baseline_count,
            Ghost(start),
        ) {
            Ok(charged) => charged,
            Err(error) => {
                proof {
                    lemma_units_alike(numbered, *self);
                }
                return Err((input, error));
            },
        };
        proof {
            lemma_units_alike(numbered, *self);
        }
        let mut family: Option<PreparedFamily> = None;
        if let Some((id, version)) = numbers {
            family = Some(
                PreparedFamily {
                    id,
                    version,
                    baselines,
                    charge: MetadataLease { bytes: family_bytes },
                },
            );
        }
        proof {
            assert forall|i: int| 0 <= i < publications@.len() implies self.current(
                #[trigger] publications@[i],
            ) by {
                assert(start.current(publications@[i]));
            }
        }
        let charges = (
            MetadataLease { bytes: unit_bytes + slots },
            MetadataLease { bytes: table },
            MetadataLease { bytes: work - payloads + boxes },
        );
        let prepared = self.complete_preparation(publications, input, family, versions, charges);
        proof {
            assert(start.preparation_fault(publications@, input, cursor, baseline_count as int)
                is None);
            assert(prepared.reliance() == baseline_count);
            assert(start.prepares(*self, publications@, input, cursor, prepared));
            assert(start.prepared_charges(self.cache, prepared));
        }
        Ok(prepared)
    }

    /// The process with the idle tables gone and storage for one more unit.
    pub open spec fn readied(
        &self,
        ready: Lifetime,
        tier: Tier,
        pages: usize,
        room: usize,
        larger: Option<LargerIndex>,
    ) -> bool {
        exists|cleared: Lifetime|
            self.cleared(cleared) && #[trigger] grows_units(
                cleared,
                ready,
                tier,
                pages,
                room,
                larger,
                None,
            )
    }

    /// Prepares a unit for publication. `cursor` is the memory authority's current
    /// notification; the image must have been frozen at it. A unit that is refused
    /// comes back. How much room the index of pages has and how many bytes a larger
    /// one takes, its hash table decides.
    pub fn prepare_unit(&mut self, publications: Vec<Publication>, input: Input, cursor: u64) -> (r:
        Result<PreparedUnit, (Input, Error)>)
        requires
            old(self).wf(),
            input.code.wf(),
        ensures
            final(self).wf(),
            exists|room: usize, larger: Option<LargerIndex>| #[trigger]
                old(self).index_offer(room, input.dependencies@.len() as int, larger)
                    && preparation(
                    *old(self),
                    *final(self),
                    publications@,
                    input,
                    cursor,
                    room,
                    larger,
                    r,
                ),
    {
        let (room, larger) = self.offer_index(input.dependencies.len());
        assert(self.index_offer(room, input.dependencies@.len() as int, larger));
        self.prepare_with_index(publications, input, cursor, room, larger)
    }

    /// The same, where the index of pages has `room` and a larger one is at hand.
    pub fn prepare_with_index(
        &mut self,
        publications: Vec<Publication>,
        input: Input,
        cursor: u64,
        room: usize,
        larger: Option<LargerIndex>,
    ) -> (r: Result<PreparedUnit, (Input, Error)>)
        requires
            old(self).wf(),
            input.code.wf(),
            old(self).index_ready(room, input.dependencies@.len() as int, larger),
        ensures
            final(self).wf(),
            preparation(
                *old(self),
                *final(self),
                publications@,
                input,
                cursor,
                room,
                larger,
                r,
            ),
    {
        if let Err(error) = input.validate(
            self.identity,
            self.cache_identity,
            publications.as_slice(),
        ) {
            return Err((input, error));
        }
        if let Err(error) = self.collect_tables() {
            return Err((input, error));
        }
        let ghost cleared = *self;
        let pages: usize = input.dependencies.len();
        let result = self.grow_units_with(input.tier, pages, room, larger);
        proof {
            assert(pages == input.dependencies@.len() as usize);
            assert(grows_units(
                cleared,
                *self,
                input.tier,
                pages,
                room,
                larger,
                refusal_of(result),
            ));
        }
        if let Err(error) = result {
            return Err((input, error));
        }
        let ghost ready = *self;
        proof {
            assert(grows_units(cleared, ready, input.tier, pages, room, larger, None));
            assert(old(self).readied(ready, input.tier, pages, room, larger));
            lemma_same_admission(*old(self), ready, publications@, input, cursor);
        }
        let ghost wanted = publications@;
        match self.prepare_ready(publications, input, cursor) {
            Ok(prepared) => {
                proof {
                    assert(old(self).number_fault(input.tier, wanted.len() as int)
                        == ready.number_fault(input.tier, wanted.len() as int)) by {
                        reveal(Lifetime::number_fault);
                    }
                    assert(old(self).prepares(*self, wanted, input, cursor, prepared));
                }
                Ok(prepared)
            },
            Err((returned, error)) => {
                assert(ready.refuses(*self, wanted, input, cursor, error));
                Err((returned, error))
            },
        }
    }
}

/// What the preparation of a unit does, where the index of pages has `room` and a
/// larger one is at hand.
pub open spec fn preparation(
    before: Lifetime,
    after: Lifetime,
    publications: Seq<Publication>,
    input: Input,
    cursor: u64,
    room: usize,
    larger: Option<LargerIndex>,
    r: Result<PreparedUnit, (Input, Error)>,
) -> bool {
    let pages = input.dependencies@.len() as usize;
    &&& after == (Lifetime {
        core: after.core,
        reachabilities: after.reachabilities,
        cache: after.cache,
        units: Units {
            records: after.units.records,
            families: after.units.families,
            family_ids: after.units.family_ids,
            family_versions: after.units.family_versions,
            borrowers: after.units.borrowers,
            retired_tables: after.units.retired_tables,
            retired_capacity: after.units.retired_capacity,
            dependencies: after.units.dependencies,
            record_storage: after.units.record_storage,
            family_storage: after.units.family_storage,
            retired_storage: after.units.retired_storage,
            dependency_storage: after.units.dependency_storage,
            hcq_failure: after.units.hcq_failure,
            ..before.units
        },
        ..before
    })
    &&& after.units.families@ == before.units.families@
    &&& after.units.dependencies@ == before.units.dependencies@
    &&& match input.fault(before.identity, before.cache_identity, publications) {
        Some(fault) => {
            &&& r matches Err((returned, error)) && returned == input && fault == fault_of(error)
            &&& after == before
        },
        None => match before.core.admitted() {
            Err(closed) => {
                &&& r matches Err((returned, error)) && returned == input && error == closed
                &&& after == before || before.cleared(after)
            },
            Ok(_) => match r {
                Ok(prepared) => {
                    &&& before.prepares(after, publications, input, cursor, prepared)
                    &&& exists|ready: Lifetime| #[trigger]
                        before.readied(ready, input.tier, pages, room, larger)
                            && ready.preparation_fault(
                            publications,
                            input,
                            cursor,
                            prepared.reliance(),
                        ) is None && ready.prepared_charges(after.cache, prepared)
                            && after.units.dependencies == ready.units.dependencies
                },
                Err((returned, error)) => {
                    &&& returned == input
                    &&& {
                        ||| exists|cleared: Lifetime|
                            before.cleared(cleared) && #[trigger] grows_units(
                                cleared,
                                after,
                                input.tier,
                                pages,
                                room,
                                larger,
                                Some(error),
                            )
                        ||| exists|ready: Lifetime| #[trigger]
                            before.readied(ready, input.tier, pages, room, larger)
                                && ready.refuses(after, publications, input, cursor, error)
                    }
                },
            },
        },
    }
}

/// Only numbers were taken, and what a preparation promises was noted.
spec fn numbered(before: Lifetime, after: Lifetime) -> bool {
    &&& after == (Lifetime {
        core: after.core,
        reachabilities: after.reachabilities,
        units: after.units,
        cache: after.cache,
        ..before
    })
    &&& after.units == (Units {
        records: after.units.records,
        family_ids: after.units.family_ids,
        family_versions: after.units.family_versions,
        borrowers: after.units.borrowers,
        hcq_failure: after.units.hcq_failure,
        ..before.units
    })
}

impl PreparedUnit {
    /// All that is charged for it.
    pub open spec fn total_charge(&self) -> int {
        self.held.bytes + self.charge.bytes + self.table_charge.bytes + (match self.family {
            Some(family) => family.charge.bytes as int,
            None => 0,
        })
    }

    /// The number of units that its family relies on.
    pub open spec fn reliance(&self) -> int {
        match self.family {
            Some(family) => family.baselines@.len() as int,
            None => 0,
        }
    }
}

proof fn lemma_entries_distinct(
    input: Input,
    process: u64,
    cache: u64,
    publications: Seq<Publication>,
)
    requires
        input.fault(process, cache, publications) is None,
    ensures
        publications.len() == input.entries@.len(),
        publications.len() > 0,
        forall|i: int, j: int|
            0 <= i < j < publications.len() ==> (#[trigger] publications[i]).key != (
            #[trigger] publications[j]).key,
{
    assert forall|i: int, j: int| 0 <= i < j < publications.len() implies (
    #[trigger] publications[i]).key != (#[trigger] publications[j]).key by {
        law_valid_entries_lie_in_code(input, process, cache, publications, i);
        law_valid_entries_lie_in_code(input, process, cache, publications, j);
        let f = |k: int| input.entry_fault(process, publications, k);
        lemma_no_fault(f, 0, input.entries@.len() as int, j);
        assert(f(j) is None);
        assert(input.entries@[i].key != input.entries@[j].key);
    }
}

/// What is charged for a prepared unit is all returned with it: a unit that is given
/// up leaves the budget as it was before the preparation.
pub proof fn law_abandoned_units_cost_nothing(ready: Lifetime, after: Cache, prepared: PreparedUnit)
    requires
        ready.prepared_charges(after, prepared),
        !ready.cache.failed,
    ensures
        refunded(after, prepared.total_charge()) == ready.cache,
{
    assert(refunded(after, prepared.total_charge()).usage == ready.cache.usage);
}

/// More storage does not change what is refused.
proof fn lemma_same_admission(
    before: Lifetime,
    after: Lifetime,
    publications: Seq<Publication>,
    input: Input,
    cursor: u64,
)
    requires
        after.core == before.core,
        after.slots == before.slots,
        after.keys == before.keys,
        after.units.records@ == before.units.records@,
        after.units.families@ == before.units.families@,
        after.units.hcq_failure == before.units.hcq_failure,
    ensures
        after.admission_fault(publications, input, cursor) == before.admission_fault(
            publications,
            input,
            cursor,
        ),
        forall|baselines: Seq<Handle>|
            after.covered(publications, input.instructions@, baselines) == #[trigger] before.covered(
                publications,
                input.instructions@,
                baselines,
            ),
{
    reveal(Lifetime::admission_fault);
    let f = |i: int| before.publication_fault(publications[i]);
    let g = |i: int| after.publication_fault(publications[i]);
    assert forall|i: int| #[trigger] f(i) == g(i) by {
        assert(before.current(publications[i]) == after.current(publications[i]));
    }
    assert(f =~= g);
    let f = |i: int| before.image_fault(input.instructions@[i]);
    let g = |i: int| after.image_fault(input.instructions@[i]);
    assert(f =~= g);
    let f = |i: int| before.baseline_fault(publications[i]);
    let g = |i: int| after.baseline_fault(publications[i]);
    assert(f =~= g);
    assert forall|baselines: Seq<Handle>|
        after.covered(publications, input.instructions@, baselines) == #[trigger] before.covered(
            publications,
            input.instructions@,
            baselines,
        ) by {
        assert forall|unit: Handle| after.relied_on(publications, input.instructions@, unit)
            == #[trigger] before.relied_on(publications, input.instructions@, unit) by {}
    }
}

} // verus!
