//! Source locations that tie native instructions to guest code.

use vstd::prelude::*;
use vstd::seq_lib::{to_multiset_build, to_multiset_insert};
use super::error::{DirectJitError, DirectJitErrorKind};
use super::fault::{CompiledFaultSite, NativeAccess};

verus! {

/// The location of a guest instruction: its distance from the start of the
/// region, plus one.
pub open spec fn instruction_location(start: u64, pc: u64) -> u32 {
    let distance = if pc >= start {
        pc - start
    } else {
        pc - start + u64::MAX + 1
    };
    if distance < u32::MAX {
        (distance + 1) as u32
    } else {
        u32::MAX
    }
}

pub fn source_location_for_pc(start: u64, pc: u64) -> (r: u32)
    ensures
        r == instruction_location(start, pc),
        r > 0,
{
    let offset: u64 = pc.wrapping_sub(start);
    if offset < u32::MAX as u64 {
        offset as u32 + 1
    } else {
        u32::MAX
    }
}

/// The location of the access that was recorded as number `index`.
pub fn direct_fault_source_location(index: usize) -> (r: u32)
    requires
        index < u32::MAX,
    ensures
        r == u32::MAX - index - 1,
{
    u32::MAX - index as u32 - 1
}

/// A guest access that is yet to be found in the compiled code.
#[derive(Clone, Copy, Debug, PartialEq, Eq, Structural)]
pub struct PendingFaultSite {
    pub access: NativeAccess,
    pub source_location: u32,
}

/// The accesses were recorded in this order.
pub open spec fn recorded(sites: Seq<PendingFaultSite>) -> bool {
    &&& sites.len() <= u32::MAX
    &&& forall|i: int|
        0 <= i < sites.len() ==> (#[trigger] sites[i]).source_location == u32::MAX - i - 1
}

/// Records an access and returns the location that its instructions carry.
pub fn record_direct_fault_state(sites: &mut Vec<PendingFaultSite>, access: NativeAccess) -> (r: u32)
    requires
        recorded(old(sites)@),
        old(sites)@.len() < u32::MAX,
    ensures
        recorded(final(sites)@),
        final(sites)@ == old(sites)@.push(PendingFaultSite { access, source_location: r }),
{
    let source_location: u32 = direct_fault_source_location(sites.len());
    sites.push(PendingFaultSite { access, source_location });
    source_location
}

/// Native code of one location, by its offsets.
#[derive(Clone, Copy, Debug, PartialEq, Eq, Structural)]
pub struct SourceRange {
    pub start: u32,
    pub end: u32,
    pub location: u32,
}

/// The last range that starts at or before an offset.
pub open spec fn last_before(ranges: Seq<SourceRange>, offset: u32) -> Option<SourceRange>
    decreases ranges.len(),
{
    if ranges.len() == 0 {
        None
    } else if ranges.last().start <= offset {
        Some(ranges.last())
    } else {
        last_before(ranges.drop_last(), offset)
    }
}

pub open spec fn unique_locations(pending: Seq<PendingFaultSite>) -> bool {
    forall|i: int, j: int|
        0 <= i < j < pending.len() ==> (#[trigger] pending[i]).source_location != (
        #[trigger] pending[j]).source_location
}

pub open spec fn at_location(pending: Seq<PendingFaultSite>, location: u32) -> bool {
    exists|i: int| 0 <= i < pending.len() && (#[trigger] pending[i]).source_location == location
}

/// Why no access is known for a trap.
pub open spec fn unattributed(
    ranges: Seq<SourceRange>,
    pending: Seq<PendingFaultSite>,
    offset: u32,
) -> Option<Seq<char>> {
    match last_before(ranges, offset) {
        None => Some("direct memory trap has no source-location range"@),
        Some(range) => if offset >= range.end {
            Some("direct memory trap falls outside its source-location range"@)
        } else if !at_location(pending, range.location) {
            Some("direct memory trap has no pending fault site"@)
        } else {
            None
        },
    }
}

/// A trap comes from this access.
pub open spec fn attributed(
    ranges: Seq<SourceRange>,
    pending: Seq<PendingFaultSite>,
    offset: u32,
    access: NativeAccess,
) -> bool {
    &&& last_before(ranges, offset) is Some
    &&& exists|i: int|
        0 <= i < pending.len() && (#[trigger] pending[i]).access == access
            && pending[i].source_location == (last_before(ranges, offset)->0).location
}

/// The interval of a trap.
pub open spec fn trap_end(offset: u32) -> int {
    if offset < u32::MAX {
        offset + 1
    } else {
        offset as int
    }
}

/// Two traps lie at one place.
pub open spec fn overlapping(traps: Seq<u32>) -> bool {
    exists|i: int, j: int|
        0 <= i < j < traps.len() && (#[trigger] traps[i]) == (#[trigger] traps[j]) && traps[i]
            < u32::MAX
}

/// The first trap that no access is known for has this reason.
pub open spec fn first_unattributed(
    ranges: Seq<SourceRange>,
    pending: Seq<PendingFaultSite>,
    traps: Seq<u32>,
    text: Seq<char>,
) -> bool {
    exists|k: int|
        #![trigger traps[k]]
        0 <= k < traps.len() && unattributed(ranges, pending, traps[k]) == Some(text) && forall|
            j: int,
        |
            0 <= j < k ==> unattributed(ranges, pending, #[trigger] traps[j]) is None
}

pub open spec fn starts(sites: Seq<CompiledFaultSite>) -> Seq<u32> {
    sites.map_values(|site: CompiledFaultSite| site.native_start)
}

fn find_range(ranges: &Vec<SourceRange>, offset: u32) -> (r: Option<SourceRange>)
    ensures
        r == last_before(ranges@, offset),
{
    let mut k: usize = ranges.len();
    proof {
        assert(ranges@.take(k as int) =~= ranges@);
    }
    while k > 0
        invariant
            k <= ranges@.len(),
            last_before(ranges@, offset) == last_before(ranges@.take(k as int), offset),
        decreases k,
    {
        proof {
            assert(ranges@.take(k as int).drop_last() =~= ranges@.take(k - 1));
        }
        if ranges[k - 1].start <= offset {
            return Some(ranges[k - 1]);
        }
        k = k - 1;
    }
    None
}

fn find_pending(pending: &Vec<PendingFaultSite>, location: u32) -> (r: Option<NativeAccess>)
    ensures
        match r {
            Some(access) => exists|i: int|
                0 <= i < pending@.len() && (#[trigger] pending@[i]).source_location == location
                    && pending@[i].access == access,
            None => !at_location(pending@, location),
        },
{
    let mut k: usize = 0;
    while k < pending.len()
        invariant
            k <= pending@.len(),
            forall|j: int| 0 <= j < k ==> (#[trigger] pending@[j]).source_location != location,
        decreases pending@.len() - k,
    {
        if pending[k].source_location == location {
            return Some(pending[k].access);
        }
        k = k + 1;
    }
    None
}

fn locations_differ(pending: &Vec<PendingFaultSite>) -> (r: bool)
    ensures
        r == unique_locations(pending@),
{
    let mut k: usize = 0;
    while k < pending.len()
        invariant
            k <= pending@.len(),
            unique_locations(pending@.take(k as int)),
        decreases pending@.len() - k,
    {
        let mut j: usize = 0;
        while j < k
            invariant
                j <= k < pending@.len(),
                forall|i: int|
                    0 <= i < j ==> (#[trigger] pending@[i]).source_location
                        != pending@[k as int].source_location,
            decreases k - j,
        {
            if pending[j].source_location == pending[k].source_location {
                return false;
            }
            j = j + 1;
        }
        proof {
            assert forall|i: int, j: int| 0 <= i < j < k + 1 implies (
            #[trigger] pending@.take(k + 1)[i]).source_location != (
            #[trigger] pending@.take(k + 1)[j]).source_location by {
                if j < k {
                    assert(pending@.take(k as int)[i] == pending@[i]);
                    assert(pending@.take(k as int)[j] == pending@[j]);
                } else {
                    assert(pending@[i].source_location != pending@[k as int].source_location);
                }
            }
        }
        k = k + 1;
    }
    proof {
        assert(pending@.take(k as int) =~= pending@);
    }
    true
}

pub open spec fn ordered(sites: Seq<CompiledFaultSite>) -> bool {
    forall|i: int, j: int|
        0 <= i < j < sites.len() ==> (#[trigger] sites[i]).native_start <= (
        #[trigger] sites[j]).native_start
}

/// Puts a site into its place.
fn insert_site(sites: &mut Vec<CompiledFaultSite>, site: CompiledFaultSite)
    requires
        ordered(old(sites)@),
    ensures
        ordered(final(sites)@),
        exists|at: int|
            0 <= at <= old(sites)@.len() && final(sites)@ == #[trigger] old(sites)@.insert(at, site),
{
    let mut at: usize = 0;
    while at < sites.len() && sites[at].native_start <= site.native_start
        invariant
            at <= sites@.len(),
            sites@ == old(sites)@,
            forall|i: int|
                0 <= i < at ==> (#[trigger] sites@[i]).native_start <= site.native_start,
        decreases sites@.len() - at,
    {
        at = at + 1;
    }
    sites.insert(at, site);
}

/// Some two neighbours overlap.
fn neighbours_overlap(sites: &Vec<CompiledFaultSite>) -> (r: bool)
    requires
        ordered(sites@),
        forall|i: int|
            0 <= i < sites@.len() ==> (#[trigger] sites@[i]).native_end == trap_end(
                sites@[i].native_start,
            ),
    ensures
        r == overlapping(starts(sites@)),
{
    let mut k: usize = 1;
    while k < sites.len()
        invariant
            1 <= k,
            k <= sites@.len() || sites@.len() == 0,
            ordered(sites@),
            forall|i: int|
                0 <= i < sites@.len() ==> (#[trigger] sites@[i]).native_end == trap_end(
                    sites@[i].native_start,
                ),
            forall|i: int, j: int|
                0 <= i < j < k && j < sites@.len() ==> (#[trigger] sites@[i]).native_start < (
                #[trigger] sites@[j]).native_start || sites@[i].native_start == u32::MAX,
        decreases sites@.len() - k,
    {
        if sites[k - 1].native_end > sites[k].native_start {
            proof {
                let all = starts(sites@);
                assert(all[k - 1] == all[k as int]);
            }
            return true;
        }
        k = k + 1;
    }
    proof {
        let all = starts(sites@);
        assert forall|i: int, j: int| 0 <= i < j < all.len() implies !((#[trigger] all[i]) == (
        #[trigger] all[j]) && all[i] < u32::MAX) by {
            assert(all[i] == sites@[i].native_start);
            assert(all[j] == sites@[j].native_start);
        }
    }
    false
}

/// Two lists of the same numbers, as often, overlap alike.
proof fn lemma_same_overlap(a: Seq<u32>, b: Seq<u32>)
    requires
        a.to_multiset() == b.to_multiset(),
        overlapping(a),
    ensures
        overlapping(b),
{
    broadcast use vstd::seq_lib::group_to_multiset_ensures;

    let (i, j) = choose|i: int, j: int|
        0 <= i < j < a.len() && (#[trigger] a[i]) == (#[trigger] a[j]) && a[i] < u32::MAX;
    let v = a[i];
    lemma_twice(a, i, j);
    assert(b.to_multiset().count(v) >= 2);
    assert(b.contains(v));
    let p = choose|p: int| 0 <= p < b.len() && b[p] == v;
    assert(b.remove(p).to_multiset() == b.to_multiset().remove(v));
    assert(b.remove(p).to_multiset().count(v) >= 1);
    assert(b.remove(p).contains(v));
    let q = choose|q: int| 0 <= q < b.remove(p).len() && b.remove(p)[q] == v;
    if q < p {
        assert(b[q] == v && b[p] == v);
    } else {
        assert(b[p] == v && b[q + 1] == v);
    }
}

proof fn lemma_twice(a: Seq<u32>, i: int, j: int)
    requires
        0 <= i < j < a.len(),
        a[i] == a[j],
    ensures
        a.to_multiset().count(a[i]) >= 2,
{
    broadcast use vstd::seq_lib::group_to_multiset_ensures;

    let rest = a.remove(j);
    assert(rest.to_multiset() == a.to_multiset().remove(a[j]));
    assert(rest[i] == a[i]);
    assert(rest.contains(a[i]));
    assert(rest.to_multiset().count(a[i]) >= 1);
    assert(a.contains(a[j]));
    assert(a.to_multiset().count(a[j]) >= 1);
}

/// Finds the access of each trap on guest memory, by the location of the native
/// code that traps.
pub fn compile_fault_sites(
    ranges: &Vec<SourceRange>,
    traps: &Vec<u32>,
    pending: &Vec<PendingFaultSite>,
) -> (r: Result<Vec<CompiledFaultSite>, DirectJitError>)
    ensures
        match r {
            Err(error) => {
                ||| !unique_locations(pending@) && error.is(
                    DirectJitErrorKind::Internal,
                    "direct fault-site source locations are not unique"@,
                )
                ||| unique_locations(pending@) && error.kind == DirectJitErrorKind::Internal
                    && first_unattributed(ranges@, pending@, traps@, error.detail@)
                ||| unique_locations(pending@) && (forall|k: int|
                    0 <= k < traps@.len() ==> unattributed(ranges@, pending@, #[trigger] traps@[k])
                        is None) && overlapping(traps@) && error.is(
                    DirectJitErrorKind::Internal,
                    "Cranelift direct fault-site intervals overlap"@,
                )
            },
            Ok(sites) => {
                &&& unique_locations(pending@)
                &&& forall|k: int|
                    0 <= k < traps@.len() ==> unattributed(ranges@, pending@, #[trigger] traps@[k])
                        is None
                &&& !overlapping(traps@)
                &&& ordered(sites@)
                &&& starts(sites@).to_multiset() == traps@.to_multiset()
                &&& forall|i: int|
                    0 <= i < sites@.len() ==> (#[trigger] sites@[i]).native_end == trap_end(
                        sites@[i].native_start,
                    ) && attributed(ranges@, pending@, sites@[i].native_start, sites@[i].access)
            },
        },
{
    if !locations_differ(pending) {
        return Err(
            DirectJitError::internal("direct fault-site source locations are not unique"),
        );
    }
    let mut sites: Vec<CompiledFaultSite> = Vec::new();
    let mut k: usize = 0;
    proof {
        assert(starts(sites@) =~= traps@.take(0));
    }
    while k < traps.len()
        invariant
            k <= traps@.len(),
            unique_locations(pending@),
            forall|j: int|
                0 <= j < k ==> unattributed(ranges@, pending@, #[trigger] traps@[j]) is None,
            ordered(sites@),
            starts(sites@).to_multiset() == traps@.take(k as int).to_multiset(),
            forall|i: int|
                0 <= i < sites@.len() ==> (#[trigger] sites@[i]).native_end == trap_end(
                    sites@[i].native_start,
                ) && attributed(ranges@, pending@, sites@[i].native_start, sites@[i].access),
        decreases traps@.len() - k,
    {
        let offset: u32 = traps[k];
        let range = match find_range(ranges, offset) {
            Some(range) => range,
            None => {
                return Err(
                    DirectJitError::internal("direct memory trap has no source-location range"),
                );
            },
        };
        if offset >= range.end {
            return Err(
                DirectJitError::internal(
                    "direct memory trap falls outside its source-location range",
                ),
            );
        }
        let access = match find_pending(pending, range.location) {
            Some(access) => access,
            None => {
                return Err(
                    DirectJitError::internal("direct memory trap has no pending fault site"),
                );
            },
        };
        let site = CompiledFaultSite {
            native_start: offset,
            native_end: offset.saturating_add(1),
            access,
        };
        let ghost before = sites@;
        insert_site(&mut sites, site);
        proof {
            let at = choose|at: int|
                0 <= at <= before.len() && sites@ == #[trigger] before.insert(at, site);
            assert(starts(sites@) =~= starts(before).insert(at, offset));
            to_multiset_insert(starts(before), at, offset);
            to_multiset_build(traps@.take(k as int), offset);
            assert(traps@.take(k + 1) =~= traps@.take(k as int).push(offset));
            assert(attributed(ranges@, pending@, offset, access));
            assert forall|i: int| 0 <= i < sites@.len() implies (
            #[trigger] sites@[i]).native_end == trap_end(sites@[i].native_start) && attributed(
                ranges@,
                pending@,
                sites@[i].native_start,
                sites@[i].access,
            ) by {
                if i < at {
                    assert(sites@[i] == before[i]);
                } else if i == at {
                    assert(sites@[i] == site);
                } else {
                    assert(sites@[i] == before[i - 1]);
                }
            }
        }
        k = k + 1;
    }
    proof {
        assert(traps@.take(k as int) =~= traps@);
        if overlapping(traps@) {
            lemma_same_overlap(traps@, starts(sites@));
        }
        if overlapping(starts(sites@)) {
            lemma_same_overlap(starts(sites@), traps@);
        }
    }
    if neighbours_overlap(&sites) {
        return Err(DirectJitError::internal("Cranelift direct fault-site intervals overlap"));
    }
    Ok(sites)
}

/// Accesses that were recorded one after the other have different locations.
pub proof fn law_recorded_locations_are_unique(sites: Seq<PendingFaultSite>)
    requires
        recorded(sites),
    ensures
        unique_locations(sites),
{
}

/// The location of an access is not that of a guest instruction, as long as the
/// region and the number of accesses are small together.
pub proof fn law_access_locations_are_their_own(
    sites: Seq<PendingFaultSite>,
    start: u64,
    pc: u64,
    k: int,
)
    requires
        recorded(sites),
        0 <= k < sites.len(),
        start <= pc,
        pc - start + 1 < u32::MAX - sites.len(),
    ensures
        sites[k].source_location != instruction_location(start, pc),
{
}

/// The location of an instruction tells its address, as long as the region is small: no
/// two instructions of it share one, and none is zero.
pub proof fn law_locations_tell_their_instruction(start: u64, pc: u64, other: u64)
    requires
        start <= pc,
        pc - start < u32::MAX - 1,
        start <= other,
        other - start < u32::MAX - 1,
    ensures
        instruction_location(start, pc) > 0,
        start + instruction_location(start, pc) - 1 == pc,
        instruction_location(start, pc) == instruction_location(start, other) ==> pc == other,
{
}

/// A trap is attributed to an access whose native code it lies in: where the ranges are in
/// order, the range that is found covers the trap, and no later one starts before it.
pub proof fn law_traps_lie_in_their_range(
    ranges: Seq<SourceRange>,
    pending: Seq<PendingFaultSite>,
    offset: u32,
    access: NativeAccess,
)
    requires
        unattributed(ranges, pending, offset) is None,
        attributed(ranges, pending, offset, access),
    ensures
        exists|r: int, p: int|
            #![trigger ranges[r], pending[p]]
            0 <= r < ranges.len() && 0 <= p < pending.len() && ranges[r].start <= offset
                < ranges[r].end && pending[p].access == access && pending[p].source_location
                == ranges[r].location && forall|later: int|
                r < later < ranges.len() ==> offset < (#[trigger] ranges[later]).start,
{
    let r = lemma_last_before(ranges, offset);
    let p = choose|p: int|
        0 <= p < pending.len() && (#[trigger] pending[p]).access == access
            && pending[p].source_location == (last_before(ranges, offset)->0).location;
    assert(ranges[r].start <= offset < ranges[r].end);
    assert(pending[p].access == access);
}

proof fn lemma_last_before(ranges: Seq<SourceRange>, offset: u32) -> (r: int)
    requires
        last_before(ranges, offset) is Some,
    ensures
        0 <= r < ranges.len(),
        ranges[r] == last_before(ranges, offset)->0,
        ranges[r].start <= offset,
        forall|later: int| r < later < ranges.len() ==> offset < (#[trigger] ranges[later]).start,
    decreases ranges.len(),
{
    if ranges.last().start <= offset {
        ranges.len() - 1
    } else {
        let rest = ranges.drop_last();
        let r = lemma_last_before(rest, offset);
        assert forall|later: int| r < later < ranges.len() implies offset < (
        #[trigger] ranges[later]).start by {
            if later < rest.len() {
                assert(rest[later] == ranges[later]);
            }
        }
        r
    }
}

} // verus!
