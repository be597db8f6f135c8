//! Placement of code in the reserved window, under the shared budget.
//!
//! The cache decides; the application performs the commits, protections and
//! releases that it asks for, under one lock, and reports how they ended.

use vstd::prelude::*;
use super::segment::{law_no_live_span_means_empty, Segment, Span};
use super::usage::{limit_fault, Usage};
use super::{Error, Tier, HARD_BYTES, ISLAND_BYTES, SEGMENTS, SEGMENT_BYTES, WINDOW_BYTES};
use crate::abi::identity::{CheckedCounter, SegmentGeneration};

verus! {

/// Bytes of storage for one free span.
pub const SPAN_BYTES: usize = 16;

pub open spec fn segment_extent(index: int) -> int {
    if (index + 1) * SEGMENT_BYTES <= WINDOW_BYTES {
        SEGMENT_BYTES as int
    } else {
        WINDOW_BYTES - index * SEGMENT_BYTES
    }
}

/// Bytes of a segment: the last one is cut off by the end of the window.
pub fn segment_size(index: usize) -> (r: usize)
    requires
        index < SEGMENTS,
    ensures
        r == segment_extent(index as int),
{
    let rest: usize = WINDOW_BYTES - index * SEGMENT_BYTES;
    if rest < SEGMENT_BYTES {
        rest
    } else {
        SEGMENT_BYTES
    }
}

pub open spec fn align_up(address: int, alignment: int) -> int {
    ((address + alignment - 1) / alignment) * alignment
}

proof fn lemma_align_up(address: int, alignment: int)
    requires
        alignment > 0,
        address >= 0,
    ensures
        address <= align_up(address, alignment) < address + alignment,
        align_up(address, alignment) % alignment == 0,
        align_up(address, alignment) == (address + alignment - 1) - (address + alignment - 1)
            % alignment,
{
    let raised = address + alignment - 1;
    vstd::arithmetic::div_mod::lemma_fundamental_div_mod(raised, alignment);
    vstd::arithmetic::div_mod::lemma_mod_bound(raised, alignment);
    vstd::arithmetic::mul::lemma_mul_is_commutative(raised / alignment, alignment);
    vstd::arithmetic::div_mod::lemma_mod_multiples_basic(raised / alignment, alignment);
}

/// One bit set.
fn round_up(address: usize, alignment: usize) -> (r: Option<usize>)
    requires
        alignment > 0,
    ensures
        r == if address + alignment - 1 > usize::MAX {
            None::<usize>
        } else {
            Some(align_up(address as int, alignment as int) as usize)
        },
        r matches Some(aligned) ==> aligned == align_up(address as int, alignment as int),
{
    proof {
        lemma_align_up(address as int, alignment as int);
    }
    match address.checked_add(alignment - 1) {
        Some(raised) => Some(raised - raised % alignment),
        None => None,
    }
}

/// The first address from here on that has the alignment.
pub fn align(address: usize, alignment: usize) -> (r: Result<usize, Error>)
    requires
        is_power_of_two(alignment),
    ensures
        if address + alignment - 1 > usize::MAX {
            r matches Err(Error::Capacity(detail)) && detail@ == "aligned address overflow"@
        } else {
            r matches Ok(aligned) && aligned == align_up(address as int, alignment as int)
        },
{
    match round_up(address, alignment) {
        Some(aligned) => Ok(aligned),
        None => Err(Error::Capacity("aligned address overflow")),
    }
}

pub open spec fn is_power_of_two(value: usize) -> bool {
    value > 0 && value & ((value - 1) as usize) == 0
}

pub fn power_of_two(value: usize) -> (r: bool)
    ensures
        r == is_power_of_two(value),
{
    value > 0 && value & (value - 1) == 0
}

pub open spec fn committed_bytes(segments: Seq<Segment>, count: int) -> int
    decreases count,
{
    if count <= 0 {
        0
    } else {
        committed_bytes(segments, count - 1) + if segments[count - 1].generation is Some {
            segment_extent(count - 1)
        } else {
            0
        }
    }
}

pub open spec fn storage_bytes(segments: Seq<Segment>, count: int) -> int
    decreases count,
{
    if count <= 0 {
        0
    } else {
        storage_bytes(segments, count - 1) + segments[count - 1].capacity * SPAN_BYTES
    }
}

proof fn lemma_bytes_update(segments: Seq<Segment>, index: int, value: Segment, count: int)
    requires
        0 <= index < segments.len(),
        0 <= count <= segments.len(),
    ensures
        committed_bytes(segments.update(index, value), count) == committed_bytes(segments, count)
            + if index < count {
            (if value.generation is Some {
                segment_extent(index)
            } else {
                0
            }) - (if segments[index].generation is Some {
                segment_extent(index)
            } else {
                0
            })
        } else {
            0
        },
        storage_bytes(segments.update(index, value), count) == storage_bytes(segments, count)
            + if index < count {
            (value.capacity - segments[index].capacity) * SPAN_BYTES
        } else {
            0
        },
    decreases count,
{
    if count > 0 {
        lemma_bytes_update(segments, index, value, count - 1);
    }
}

pub proof fn lemma_bytes_nonnegative(segments: Seq<Segment>, index: int, count: int)
    requires
        0 <= count <= segments.len() <= SEGMENTS,
        0 <= index,
    ensures
        committed_bytes(segments, count) >= 0,
        storage_bytes(segments, count) >= 0,
        index < count && segments[index].generation is Some ==> committed_bytes(segments, count)
            >= segment_extent(index),
        index < count ==> storage_bytes(segments, count) >= segments[index].capacity * SPAN_BYTES,
    decreases count,
{
    if count > 0 {
        lemma_bytes_nonnegative(segments, index, count - 1);
    }
}

/// A charge against the budget, to be returned by its owner.
pub struct MetadataLease {
    pub bytes: usize,
}

/// A live span. Published owners keep it until no reader can reach it.
pub struct Allocation {
    pub tier: Tier,
    pub segment: usize,
    pub generation: SegmentGeneration,
    pub span: Span,
}

/// Where a unit goes: into a free span, or above the bump offset.
#[derive(Clone, Copy, Debug, PartialEq, Eq, Structural)]
pub struct Placement {
    pub segment: usize,
    pub start: usize,
    pub free: Option<usize>,
}

/// A placement in a segment whose backing must be committed first.
#[derive(Clone, Copy, Debug, PartialEq, Eq, Structural)]
pub struct PendingCommit {
    pub placement: Placement,
    pub size: usize,
    pub tier: Tier,
    pub generation: SegmentGeneration,
}

pub enum AllocateStep {
    Done(Allocation),
    Commit(PendingCommit),
}

/// How the host's commit of a segment ended.
#[derive(Clone, Copy, Debug, PartialEq, Eq, Structural)]
pub enum CommitOutcome {
    Committed,
    /// The commit failed, and the backing was released again.
    Released(i32),
    /// The commit failed, and so did the release.
    Stuck(i32),
    /// The backing is committed but could not be made executable.
    Unprotected(i32),
}

pub struct Cache {
    pub base: usize,
    pub segments: Vec<Segment>,
    pub generations: CheckedCounter<SegmentGeneration>,
    pub usage: Usage,
    /// A host failure left the cache unusable.
    pub failed: bool,
    /// The reservation is still mapped.
    pub open: bool,
    /// The segment whose backing is being committed.
    pub committing: Option<usize>,
    /// Bytes charged for leases that have not been returned.
    pub leased: usize,
    /// Bytes charged for the cache itself.
    pub fixed: Ghost<int>,
}

pub open spec fn start_in(base: int, index: int, from: int, alignment: int) -> int {
    align_up(base + index * SEGMENT_BYTES + from, alignment) - base - index * SEGMENT_BYTES
}

/// A tier may use its own segments and any segment without live spans.
pub open spec fn eligible(segment: Segment, tier: Tier) -> bool {
    segment.live == 0 || segment.tier == Some(tier)
}

/// The candidate order: the smallest span, then the lowest address.
#[derive(Clone, Copy, Debug, PartialEq, Eq, Structural)]
pub struct Candidate {
    pub len: usize,
    pub segment: usize,
    pub start: usize,
    pub free: usize,
}

impl Candidate {
    pub open spec fn precedes(self, other: Candidate) -> bool {
        ||| self.len < other.len
        ||| self.len == other.len && self.segment < other.segment
        ||| self.len == other.len && self.segment == other.segment && self.start < other.start
        ||| self.len == other.len && self.segment == other.segment && self.start == other.start
            && self.free < other.free
    }

    fn is_before(self, other: Candidate) -> (r: bool)
        ensures
            r == self.precedes(other),
    {
        if self.len != other.len {
            self.len < other.len
        } else if self.segment != other.segment {
            self.segment < other.segment
        } else if self.start != other.start {
            self.start < other.start
        } else {
            self.free < other.free
        }
    }
}

impl Cache {
    /// No commit is under way, and committed segments are charged exactly.
    pub open spec fn wf(&self) -> bool {
        &&& self.consistent()
        &&& self.committing is None
        &&& !self.failed ==> self.usage.committed == committed_bytes(
            self.segments@,
            SEGMENTS as int,
        )
    }

    pub open spec fn consistent(&self) -> bool {
        &&& self.base + WINDOW_BYTES + SEGMENT_BYTES <= usize::MAX
        &&& self.segments@.len() == SEGMENTS
        &&& forall|i: int|
            0 <= i < SEGMENTS ==> (#[trigger] self.segments@[i]).wf() && self.segments@[i].bump
                <= segment_extent(i) - ISLAND_BYTES
        &&& self.usage.sum() <= HARD_BYTES
        &&& self.usage.metadata == self.fixed@ + self.leased + storage_bytes(
            self.segments@,
            SEGMENTS as int,
        )
        &&& self.fixed@ >= 0
        &&& !self.open ==> forall|i: int| 0 <= i < SEGMENTS ==> (#[trigger] self.segments@[i]).blank()
    }

    /// A free span that a unit fits into.
    pub open spec fn fits_free(
        &self,
        size: usize,
        alignment: usize,
        tier: Tier,
        index: int,
        k: int,
    ) -> bool {
        &&& 0 <= index < SEGMENTS
        &&& eligible(self.segments@[index], tier)
        &&& 0 <= k < self.segments@[index].free@.len()
        &&& start_in(
            self.base as int,
            index,
            self.segments@[index].free@[k].start as int,
            alignment as int,
        ) + size <= self.segments@[index].free@[k].limit()
    }

    pub open spec fn candidate(&self, alignment: usize, index: int, k: int) -> Candidate {
        Candidate {
            len: self.segments@[index].free@[k].len,
            segment: index as usize,
            start: start_in(
                self.base as int,
                index,
                self.segments@[index].free@[k].start as int,
                alignment as int,
            ) as usize,
            free: k as usize,
        }
    }

    pub open spec fn fits_bump(&self, size: usize, alignment: usize, tier: Tier, index: int) -> bool {
        &&& 0 <= index < SEGMENTS
        &&& eligible(self.segments@[index], tier)
        &&& start_in(
            self.base as int,
            index,
            self.segments@[index].bump as int,
            alignment as int,
        ) + size <= segment_extent(index) - ISLAND_BYTES
    }

    /// Best fit among free spans, then the lowest address; else the first segment
    /// with room above its bump offset, committed segments first.
    pub open spec fn is_placement(
        &self,
        size: usize,
        alignment: usize,
        tier: Tier,
        place: Placement,
    ) -> bool {
        let index = place.segment as int;
        match place.free {
            Some(k) => {
                &&& self.fits_free(size, alignment, tier, index, k as int)
                &&& place.start == self.candidate(alignment, index, k as int).start
                &&& forall|i: int, j: int| #[trigger]
                    self.fits_free(size, alignment, tier, i, j) ==> !self.candidate(
                        alignment,
                        i,
                        j,
                    ).precedes(self.candidate(alignment, index, k as int))
            },
            None => {
                &&& forall|i: int, j: int| !#[trigger] self.fits_free(size, alignment, tier, i, j)
                &&& self.fits_bump(size, alignment, tier, index)
                &&& place.start == start_in(
                    self.base as int,
                    index,
                    self.segments@[index].bump as int,
                    alignment as int,
                )
                &&& forall|i: int| #[trigger]
                    self.fits_bump(size, alignment, tier, i) ==> if self.segments@[i].generation is Some
                        == self.segments@[index].generation is Some {
                        index <= i
                    } else {
                        self.segments@[index].generation is Some
                    }
            },
        }
    }

    pub open spec fn nothing_fits(&self, size: usize, alignment: usize, tier: Tier) -> bool {
        &&& forall|i: int, j: int| !#[trigger] self.fits_free(size, alignment, tier, i, j)
        &&& forall|i: int| !#[trigger] self.fits_bump(size, alignment, tier, i)
    }

    fn aligned_start(&self, index: usize, from: usize, alignment: usize) -> (r: usize)
        requires
            self.wf(),
            index < SEGMENTS,
            from <= SEGMENT_BYTES,
            index * SEGMENT_BYTES + from <= WINDOW_BYTES,
            0 < alignment <= SEGMENT_BYTES,
        ensures
            r == start_in(self.base as int, index as int, from as int, alignment as int),
            from <= r < from + alignment,
            (self.base + index * SEGMENT_BYTES + r) % alignment as int == 0,
    {
        let address: usize = self.base + index * SEGMENT_BYTES + from;
        proof {
            lemma_align_up(address as int, alignment as int);
        }
        match round_up(address, alignment) {
            Some(aligned) => aligned - self.base - index * SEGMENT_BYTES,
            None => {
                assert(false);
                from
            },
        }
    }

    fn best_in_segment(
        &self,
        size: usize,
        alignment: usize,
        tier: Tier,
        index: usize,
        best: Option<Candidate>,
    ) -> (r: Option<Candidate>)
        requires
            self.wf(),
            index < SEGMENTS,
            0 < size <= SEGMENT_BYTES,
            0 < alignment <= SEGMENT_BYTES,
            self.best_before(size, alignment, tier, index as int, 0, best),
        ensures
            self.best_before(size, alignment, tier, index + 1, 0, r),
    {
        let segment = &self.segments[index];
        assert(self.segments@[index as int].wf());
        assert((self.segments@[index as int]).bump <= segment_extent(index as int) - ISLAND_BYTES);
        let usable = segment.live == 0 || segment.tier == Some(tier);
        if !usable {
            proof {
                assert(forall|j: int| !self.fits_free(size, alignment, tier, index as int, j));
                assert(self.best_before(size, alignment, tier, index + 1, 0, best));
            }
            return best;
        }
        let mut best = best;
        let mut k: usize = 0;
        while k < segment.free.len()
            invariant
                self.wf(),
                index < SEGMENTS,
                segment == self.segments@[index as int],
                eligible(*segment, tier),
                segment.wf(),
                segment.bump <= segment_extent(index as int) - ISLAND_BYTES,
                0 < size <= SEGMENT_BYTES,
                0 < alignment <= SEGMENT_BYTES,
                k <= segment.free@.len(),
                self.best_before(size, alignment, tier, index as int, k as int, best),
            decreases segment.free@.len() - k,
        {
            let free = segment.free[k];
            assert(segment.free@[k as int].limit() < segment.bump);
            let start = self.aligned_start(index, free.start, alignment);
            let ghost before = best;
            if start + size <= free.end() {
                let candidate = Candidate { len: free.len, segment: index, start, free: k };
                assert(candidate == self.candidate(alignment, index as int, k as int));
                assert(self.fits_free(size, alignment, tier, index as int, k as int));
                let better = match best {
                    None => true,
                    Some(old) => candidate.is_before(old),
                };
                if better {
                    best = Some(candidate);
                }
            } else {
                assert(!self.fits_free(size, alignment, tier, index as int, k as int));
            }
            proof {
                assert forall|i: int, j: int| #[trigger]
                    self.fits_free(size, alignment, tier, i, j) && (i < index || (i == index && j < k
                        + 1)) implies best is Some && !self.candidate(alignment, i, j).precedes(
                    best->0,
                ) by {
                    if i == index && j == k {
                    } else {
                        assert(before is Some && !self.candidate(alignment, i, j).precedes(
                            before->0,
                        ));
                    }
                }
            }
            k = k + 1;
        }
        proof {
            assert(self.best_before(size, alignment, tier, index + 1, 0, best)) by {
                assert forall|i: int, j: int| #[trigger]
                    self.fits_free(size, alignment, tier, i, j) && (i < index + 1 || (i == index + 1
                        && j < 0)) implies best is Some && !self.candidate(alignment, i, j).precedes(
                    best->0,
                ) by {
                    assert(i < index || (i == index && j < k));
                }
            }
        }
        best
    }

    /// `best` is the first candidate among segments below `index` and the first
    /// `k` spans of segment `index`.
    spec fn best_before(
        &self,
        size: usize,
        alignment: usize,
        tier: Tier,
        index: int,
        k: int,
        best: Option<Candidate>,
    ) -> bool {
        &&& best matches Some(c) ==> self.fits_free(
            size,
            alignment,
            tier,
            c.segment as int,
            c.free as int,
        ) && c == self.candidate(alignment, c.segment as int, c.free as int)
        &&& forall|i: int, j: int| #[trigger]
            self.fits_free(size, alignment, tier, i, j) && (i < index || (i == index && j < k))
                ==> best is Some && !self.candidate(alignment, i, j).precedes(best->0)
    }

    /// The first segment at or after nothing that fits above its bump offset.
    fn first_bump(&self, size: usize, alignment: usize, tier: Tier, committed: bool) -> (r: Option<
        Placement,
    >)
        requires
            self.wf(),
            0 < size <= SEGMENT_BYTES,
            0 < alignment <= SEGMENT_BYTES,
        ensures
            match r {
                Some(place) => {
                    &&& place.free is None
                    &&& self.fits_bump(size, alignment, tier, place.segment as int)
                    &&& self.segments@[place.segment as int].generation is Some == committed
                    &&& place.start == start_in(
                        self.base as int,
                        place.segment as int,
                        self.segments@[place.segment as int].bump as int,
                        alignment as int,
                    )
                    &&& forall|i: int| #[trigger]
                        self.fits_bump(size, alignment, tier, i)
                            && self.segments@[i].generation is Some == committed ==> place.segment
                            <= i
                },
                None => forall|i: int| #[trigger]
                    self.fits_bump(size, alignment, tier, i) ==> self.segments@[i].generation is Some
                        != committed,
            },
    {
        let mut index: usize = 0;
        while index < SEGMENTS
            invariant
                self.wf(),
                0 < size <= SEGMENT_BYTES,
                0 < alignment <= SEGMENT_BYTES,
                index <= SEGMENTS,
                forall|i: int| #[trigger]
                    self.fits_bump(size, alignment, tier, i) && i < index
                        ==> self.segments@[i].generation is Some != committed,
            decreases SEGMENTS - index,
        {
            let segment = &self.segments[index];
            assert(self.segments@[index as int].bump <= segment_extent(index as int)
                - ISLAND_BYTES);
            if segment.generation.is_some() == committed && (segment.live == 0 || segment.tier
                == Some(tier)) {
                let start = self.aligned_start(index, segment.bump, alignment);
                if start + size <= segment_size(index) - ISLAND_BYTES {
                    return Some(Placement { segment: index, start, free: None });
                }
            }
            index = index + 1;
        }
        None
    }

    fn find_span(&self, size: usize, alignment: usize, tier: Tier) -> (r: Option<Placement>)
        requires
            self.wf(),
            0 < size <= SEGMENT_BYTES,
            0 < alignment <= SEGMENT_BYTES,
        ensures
            match r {
                Some(place) => self.is_placement(size, alignment, tier, place),
                None => self.nothing_fits(size, alignment, tier),
            },
    {
        let mut best: Option<Candidate> = None;
        let mut index: usize = 0;
        while index < SEGMENTS
            invariant
                self.wf(),
                0 < size <= SEGMENT_BYTES,
                0 < alignment <= SEGMENT_BYTES,
                index <= SEGMENTS,
                self.best_before(size, alignment, tier, index as int, 0, best),
            decreases SEGMENTS - index,
        {
            best = self.best_in_segment(size, alignment, tier, index, best);
            index = index + 1;
        }
        if let Some(candidate) = best {
            return Some(
                Placement {
                    segment: candidate.segment,
                    start: candidate.start,
                    free: Some(candidate.free),
                },
            );
        }
        assert forall|i: int, j: int| !#[trigger] self.fits_free(size, alignment, tier, i, j) by {}
        // Committed segments are preferred to new backing.
        let first = self.first_bump(size, alignment, tier, true);
        if first.is_some() {
            return first;
        }
        self.first_bump(size, alignment, tier, false)
    }
}

/// Free spans that a segment needs storage for before it takes another unit.
pub open spec fn grown_capacity(segment: Segment) -> int {
    let needed = segment.live + 2;
    if segment.capacity >= needed {
        segment.capacity as int
    } else if needed >= 2 * segment.capacity && needed >= 8 {
        needed as int
    } else if 2 * segment.capacity >= 8 {
        2 * segment.capacity
    } else {
        8
    }
}

/// Why storage for one more unit is refused: old and new storage overlap.
pub open spec fn storage_fault(usage: Usage, segment: Segment, tier: Tier) -> Option<Seq<char>> {
    if grown_capacity(segment) == segment.capacity {
        None
    } else {
        limit_fault(usage.sum() + grown_capacity(segment) * SPAN_BYTES, tier)
    }
}

pub open spec fn storage_growth(segment: Segment) -> int {
    (grown_capacity(segment) - segment.capacity) * SPAN_BYTES
}

/// Why a request is refused whatever the cache holds.
pub open spec fn request_fault(size: usize, alignment: usize) -> Option<Seq<char>> {
    if size == 0 || size > SEGMENT_BYTES - ISLAND_BYTES {
        Some("unit is empty or exceeds one segment's code area"@)
    } else if !is_power_of_two(alignment) || alignment > SEGMENT_BYTES {
        Some("invalid code alignment"@)
    } else {
        None
    }
}

pub open spec fn capacity_error(error: Error, text: Seq<char>) -> bool {
    error matches Error::Capacity(detail) && detail@ == text
}

/// The same spans, tiers and generations; only charged storage may differ.
pub open spec fn same_spans(a: Segment, b: Segment) -> bool {
    &&& a.generation == b.generation
    &&& a.tier == b.tier
    &&& a.bump == b.bump
    &&& a.live == b.live
    &&& a.free@ == b.free@
    &&& a.live_spans() == b.live_spans()
}

impl Cache {
    /// A placement for a unit whose segment is about to be committed.
    pub open spec fn awaits(&self, pending: PendingCommit) -> bool {
        let index = pending.placement.segment as int;
        &&& self.consistent()
        &&& !self.failed
        &&& self.open
        &&& 0 <= index < SEGMENTS
        &&& self.committing == Some(pending.placement.segment)
        &&& self.segments@[index].generation is None
        &&& self.segments@[index].has_room()
        &&& pending.placement.free is None
        &&& pending.size > 0
        &&& pending.placement.start + pending.size <= segment_extent(index) - ISLAND_BYTES
        &&& self.usage.committed == committed_bytes(self.segments@, SEGMENTS as int)
            + segment_extent(index)
    }

    /// The span of an allocation is live.
    pub open spec fn holds(&self, allocation: Allocation) -> bool {
        let index = allocation.segment as int;
        &&& 0 <= index < SEGMENTS
        &&& self.segments@[index].generation == Some(allocation.generation)
        &&& self.segments@[index].live_spans().dom().contains(allocation.span.start as int)
        &&& self.segments@[index].live_spans()[allocation.span.start as int] == allocation.span.len
    }

    /// The address that the unit will execute at.
    pub open spec fn address_of(&self, allocation: Allocation) -> int {
        self.base + allocation.segment * SEGMENT_BYTES + allocation.span.start
    }

    /// Where the code of an allocation lies.
    pub fn address(&self, allocation: &Allocation) -> (r: usize)
        requires
            self.base + WINDOW_BYTES + SEGMENT_BYTES <= usize::MAX,
            allocation.segment < SEGMENTS,
            allocation.span.start <= SEGMENT_BYTES,
        ensures
            r == self.address_of(*allocation),
    {
        self.base + allocation.segment * SEGMENT_BYTES + allocation.span.start
    }

    pub fn new(base: usize, fixed: usize) -> (r: Cache)
        requires
            base + WINDOW_BYTES + SEGMENT_BYTES <= usize::MAX,
            fixed <= HARD_BYTES,
        ensures
            r.wf(),
            r.base == base,
            r.usage == (Usage { committed: 0, metadata: fixed }),
            r.leased == 0,
            !r.failed,
            r.open,
            forall|i: int| 0 <= i < SEGMENTS ==> (#[trigger] r.segments@[i]).blank(),
    {
        let mut segments: Vec<Segment> = Vec::new();
        let mut index: usize = 0;
        while index < SEGMENTS
            invariant
                index <= SEGMENTS,
                segments@.len() == index,
                forall|i: int| 0 <= i < index ==> (#[trigger] segments@[i]).blank(),
                forall|i: int| 0 <= i < index ==> (#[trigger] segments@[i]).wf(),
                committed_bytes(segments@, index as int) == 0,
                storage_bytes(segments@, index as int) == 0,
            decreases SEGMENTS - index,
        {
            let ghost before = segments@;
            segments.push(Segment::empty());
            proof {
                lemma_bytes_prefix(before, segments@, index as int);
            }
            index = index + 1;
        }
        Cache {
            base,
            segments,
            generations: CheckedCounter::default(),
            usage: Usage { committed: 0, metadata: fixed },
            failed: false,
            open: true,
            committing: None,
            leased: 0,
            fixed: Ghost(fixed as int),
        }
    }

    pub fn usage(&self) -> (r: Result<Usage, Error>)
        ensures
            match r {
                Ok(usage) => !self.failed && usage == self.usage,
                Err(error) => self.failed && error is Poisoned,
            },
    {
        if self.failed {
            return Err(Error::Poisoned);
        }
        Ok(self.usage)
    }

    pub fn executable_base(&self) -> (r: usize)
        ensures
            r == self.base,
    {
        self.base
    }

    /// The segment of an executable address. Bounds come first: the last segment
    /// is shorter than the others.
    pub fn segment_for_pc(&self, pc: usize) -> (r: Option<usize>)
        ensures
            match r {
                Some(index) => {
                    &&& self.base <= pc < self.base + WINDOW_BYTES
                    &&& index < SEGMENTS
                    &&& self.base + index * SEGMENT_BYTES <= pc < self.base + index * SEGMENT_BYTES
                        + segment_extent(index as int)
                },
                None => !(self.base <= pc < self.base + WINDOW_BYTES),
            },
    {
        if pc < self.base {
            return None;
        }
        let offset: usize = pc - self.base;
        if offset < WINDOW_BYTES {
            Some(offset / SEGMENT_BYTES)
        } else {
            None
        }
    }

    /// The cache with `bytes` more of metadata charged.
    pub open spec fn charged(self, bytes: int) -> Cache {
        Cache {
            usage: Usage {
                committed: self.usage.committed,
                metadata: (self.usage.metadata + bytes) as usize,
            },
            leased: (self.leased + bytes) as usize,
            ..self
        }
    }

    /// What of a charge can be returned: no more than is charged.
    pub open spec fn returnable(&self, bytes: int) -> int {
        if bytes <= self.leased {
            bytes
        } else {
            self.leased as int
        }
    }

    /// Charges metadata before it is stored.
    pub fn charge_metadata(&mut self, bytes: usize, tier: Tier) -> (r: Result<MetadataLease, Error>)
        requires
            old(self).wf(),
        ensures
            final(self).wf(),
            match r {
                Ok(lease) => {
                    &&& !old(self).failed && old(self).open
                    &&& limit_fault(old(self).usage.sum() + bytes, tier) is None
                    &&& lease.bytes == bytes
                    &&& *final(self) == old(self).charged(bytes as int)
                },
                Err(error) => {
                    &&& *final(self) == *old(self)
                    &&& if old(self).failed {
                        error is Poisoned
                    } else {
                        match limit_fault(old(self).usage.sum() + bytes, tier) {
                            Some(text) => capacity_error(error, text),
                            None => !old(self).open && error is Closed,
                        }
                    }
                },
            },
            final(self).segments == old(self).segments,
            final(self).base == old(self).base,
            final(self).failed == old(self).failed,
            final(self).open == old(self).open,
            final(self).generations == old(self).generations,
            final(self).fixed == old(self).fixed,
    {
        if self.failed {
            return Err(Error::Poisoned);
        }
        self.usage.check(bytes, tier)?;
        if !self.open {
            return Err(Error::Closed);
        }
        self.usage.metadata = self.usage.metadata + bytes;
        proof {
            lemma_bytes_nonnegative(self.segments@, 0, SEGMENTS as int);
        }
        self.leased = self.leased + bytes;
        Ok(MetadataLease { bytes })
    }

    /// Returns part of a charge.
    pub fn reduce(&mut self, lease: &mut MetadataLease, bytes: usize)
        requires
            old(self).wf(),
            bytes <= old(lease).bytes,
        ensures
            final(self).wf(),
            final(lease).bytes == old(lease).bytes - bytes,
            *final(self) == if old(self).failed {
                *old(self)
            } else {
                old(self).charged(-old(self).returnable(bytes as int))
            },
            final(self).segments == old(self).segments,
            final(self).base == old(self).base,
            final(self).failed == old(self).failed,
            final(self).open == old(self).open,
            final(self).generations == old(self).generations,
            final(self).fixed == old(self).fixed,
    {
        if !self.failed {
            proof {
                lemma_bytes_nonnegative(self.segments@, 0, SEGMENTS as int);
            }
            let returned: usize = if bytes <= self.leased {
                bytes
            } else {
                self.leased
            };
            self.usage.metadata = self.usage.metadata - returned;
            self.leased = self.leased - returned;
        }
        lease.bytes = lease.bytes - bytes;
    }

    /// Returns a whole charge.
    pub fn release_metadata(&mut self, lease: MetadataLease)
        requires
            old(self).wf(),
        ensures
            final(self).wf(),
            *final(self) == if old(self).failed {
                *old(self)
            } else {
                old(self).charged(-old(self).returnable(lease.bytes as int))
            },
            final(self).segments == old(self).segments,
            final(self).base == old(self).base,
            final(self).failed == old(self).failed,
            final(self).open == old(self).open,
            final(self).generations == old(self).generations,
            final(self).fixed == old(self).fixed,
    {
        let mut lease = lease;
        let bytes: usize = lease.bytes;
        self.reduce(&mut lease, bytes);
    }

    /// Charges storage so that a later release needs none.
    fn ensure_free_storage(&mut self, index: usize, tier: Tier) -> (r: Result<(), Error>)
        requires
            old(self).wf(),
            !old(self).failed,
            old(self).open,
            index < SEGMENTS,
        ensures
            final(self).wf(),
            final(self).base == old(self).base,
            final(self).failed == old(self).failed,
            final(self).open == old(self).open,
            final(self).generations == old(self).generations,
            final(self).fixed == old(self).fixed,
            final(self).leased == old(self).leased,
            final(self).usage.committed == old(self).usage.committed,
            forall|i: int|
                0 <= i < SEGMENTS ==> same_spans(
                    #[trigger] final(self).segments@[i],
                    old(self).segments@[i],
                ),
            match storage_fault(old(self).usage, old(self).segments@[index as int], tier) {
                Some(text) => r matches Err(error) && capacity_error(error, text) && *final(self)
                    == *old(self),
                None => {
                    &&& r is Ok
                    &&& final(self).segments@[index as int].has_room()
                    &&& final(self).usage.metadata == old(self).usage.metadata + storage_growth(
                        old(self).segments@[index as int],
                    )
                },
            },
    {
        let ghost before = *old(self);
        assert(self.segments@[index as int].wf());
        proof {
            super::segment::law_free_spans_bounded_by_live(self.segments@[index as int]);
            lemma_bytes_nonnegative(self.segments@, index as int, SEGMENTS as int);
        }
        let live: usize = self.segments[index].live;
        let spans: usize = self.segments[index].free.len();
        let capacity: usize = self.segments[index].capacity;
        proof {
            lemma_live_bounded(self.segments@[index as int]);
        }
        let needed: usize = if live + 2 >= spans + 2 {
            live + 2
        } else {
            spans + 2
        };
        if capacity >= needed {
            return Ok(());
        }
        let mut count: usize = needed;
        if capacity * 2 > count {
            count = capacity * 2;
        }
        if count < 8 {
            count = 8;
        }
        let bytes: usize = count * SPAN_BYTES;
        self.usage.check(bytes, tier)?;
        let ghost old_segments = self.segments@;
        self.segments[index].capacity = count;
        self.usage.metadata = self.usage.metadata + bytes - capacity * SPAN_BYTES;
        proof {
            assert(self.segments@ =~= old_segments.update(
                index as int,
                self.segments@[index as int],
            ));
            lemma_bytes_update(
                old_segments,
                index as int,
                self.segments@[index as int],
                SEGMENTS as int,
            );
        }
        Ok(())
    }
}

impl Cache {
    /// Everything but charged storage is as it was.
    pub open spec fn same_placements(&self, other: Cache) -> bool {
        &&& self.base == other.base
        &&& self.open == other.open
        &&& self.leased == other.leased
        &&& self.fixed == other.fixed
        &&& forall|i: int|
            0 <= i < SEGMENTS ==> same_spans(#[trigger] self.segments@[i], other.segments@[i])
    }

    /// Why a unit that has a place cannot get it.
    pub open spec fn place_fault(&self, tier: Tier, place: Placement) -> Option<Seq<char>> {
        let segment = self.segments@[place.segment as int];
        match storage_fault(self.usage, segment, tier) {
            Some(text) => Some(text),
            None => if segment.generation is Some {
                None
            } else {
                match limit_fault(
                    self.usage.sum() + storage_growth(segment) + segment_extent(
                        place.segment as int,
                    ),
                    tier,
                ) {
                    Some(text) => Some(text),
                    None => if self.generations.last() == u64::MAX {
                        Some("segment generation exhausted"@)
                    } else {
                        None
                    },
                }
            },
        }
    }

    /// The unit took its place and nothing else moved.
    pub open spec fn placed(
        &self,
        before: Cache,
        place: Placement,
        size: usize,
        tier: Tier,
        allocation: Allocation,
    ) -> bool {
        let index = place.segment as int;
        &&& allocation.tier == tier
        &&& allocation.segment == place.segment
        &&& allocation.span == (Span { start: place.start, len: size })
        &&& self.holds(allocation)
        &&& self.segments@[index].tier == Some(tier)
        &&& self.segments@[index].live_spans() == before.segments@[index].live_spans().insert(
            place.start as int,
            size as int,
        )
        &&& forall|i: int|
            0 <= i < SEGMENTS && i != index ==> same_spans(
                #[trigger] self.segments@[i],
                before.segments@[i],
            )
        &&& self.base == before.base
        &&& self.open == before.open
        &&& self.leased == before.leased
        &&& self.fixed == before.fixed
    }

    fn place(&mut self, place: Placement, size: usize, tier: Tier, generation: SegmentGeneration) -> (r:
        Allocation)
        requires
            old(self).wf(),
            !old(self).failed,
            place.segment < SEGMENTS,
            size > 0,
            old(self).open,
            old(self).segments@[place.segment as int].generation == Some(generation),
            old(self).segments@[place.segment as int].has_room(),
            match place.free {
                Some(k) => {
                    let free = old(self).segments@[place.segment as int].free@;
                    k < free.len() && free[k as int].start <= place.start && place.start + size
                        <= free[k as int].limit()
                },
                None => old(self).segments@[place.segment as int].bump <= place.start && place.start
                    + size <= segment_extent(place.segment as int) - ISLAND_BYTES,
            },
        ensures
            final(self).wf(),
            !final(self).failed,
            final(self).placed(*old(self), place, size, tier, r),
            r.generation == generation,
            final(self).usage == old(self).usage,
            final(self).generations == old(self).generations,
            !old(self).segments@[place.segment as int].live_spans().dom().contains(
                place.start as int,
            ),
    {
        let ghost before = *old(self);
        let index: usize = place.segment;
        assert(self.segments@[index as int].wf());
        assert(self.segments@[index as int].bump <= segment_extent(index as int) - ISLAND_BYTES);
        match place.free {
            Some(k) => {
                self.segments[index].place_in_free(k, place.start, size, tier);
            },
            None => {
                self.segments[index].place_at_bump(place.start, size, tier);
            },
        }
        proof {
            assert(self.segments@ =~= before.segments@.update(
                index as int,
                self.segments@[index as int],
            ));
            lemma_bytes_update(
                before.segments@,
                index as int,
                self.segments@[index as int],
                SEGMENTS as int,
            );
        }
        Allocation { tier, segment: index, generation, span: Span { start: place.start, len: size } }
    }

    /// Finds the place of a unit. A unit whose segment has no backing yet waits
    /// for the host to commit it; the charge is taken first.
    pub fn allocate(&mut self, size: usize, alignment: usize, tier: Tier) -> (r: Result<
        AllocateStep,
        Error,
    >)
        requires
            old(self).wf(),
        ensures
            match request_fault(size, alignment) {
                Some(text) => r matches Err(error) && capacity_error(error, text) && *final(self)
                    == *old(self),
                None => if old(self).failed {
                    r matches Err(Error::Poisoned) && *final(self) == *old(self)
                } else if !old(self).open {
                    r matches Err(Error::Closed) && *final(self) == *old(self)
                } else {
                    &&& old(self).nothing_fits(size, alignment, tier) ==> {
                        &&& r matches Err(error) && capacity_error(
                            error,
                            "2047 MiB executable window has no fitting span"@,
                        )
                        &&& *final(self) == *old(self)
                    }
                    &&& forall|place: Placement| #[trigger]
                        old(self).is_placement(size, alignment, tier, place) ==> match old(
                            self,
                        ).place_fault(tier, place) {
                            Some(text) => r matches Err(error) && capacity_error(error, text),
                            None => match r {
                                Ok(AllocateStep::Done(allocation)) => {
                                    &&& old(self).segments@[place.segment as int].generation is Some
                                    &&& final(self).placed(*old(self), place, size, tier, allocation)
                                },
                                Ok(AllocateStep::Commit(pending)) => {
                                    &&& old(self).segments@[place.segment as int].generation is None
                                    &&& pending.placement == place
                                    &&& pending.size == size
                                    &&& pending.tier == tier
                                    &&& pending.generation.id() == old(self).generations.last() + 1
                                },
                                Err(_) => false,
                            },
                        }
                    &&& old(self).nothing_fits(size, alignment, tier) || exists|place: Placement|
                        #[trigger] old(self).is_placement(size, alignment, tier, place)
                },
            },
            final(self).base == old(self).base,
            final(self).open == old(self).open,
            final(self).leased == old(self).leased,
            final(self).fixed == old(self).fixed,
            // Each commit takes a generation that was never issued before.
            final(self).generations.last() == old(self).generations.last() + if r matches Ok(
                AllocateStep::Commit(_),
            ) {
                1int
            } else {
                0
            },
            match r {
                Ok(AllocateStep::Done(allocation)) => {
                    &&& final(self).wf()
                    &&& !final(self).failed
                    &&& final(self).usage.committed == old(self).usage.committed
                    &&& final(self).address_of(allocation) % (alignment as int) == 0
                    &&& allocation.span.limit() <= segment_extent(allocation.segment as int)
                        - ISLAND_BYTES
                },
                Ok(AllocateStep::Commit(pending)) => {
                    &&& final(self).awaits(pending)
                    &&& final(self).same_placements(*old(self))
                    &&& (old(self).base + pending.placement.segment * SEGMENT_BYTES
                        + pending.placement.start) % (alignment as int) == 0
                },
                Err(_) => {
                    &&& final(self).wf()
                    &&& final(self).failed == old(self).failed
                    &&& final(self).usage.committed == old(self).usage.committed
                    &&& final(self).same_placements(*old(self))
                },
            },
    {
        if size == 0 || size > SEGMENT_BYTES - ISLAND_BYTES {
            return Err(Error::Capacity("unit is empty or exceeds one segment's code area"));
        }
        if !power_of_two(alignment) || alignment > SEGMENT_BYTES {
            return Err(Error::Capacity("invalid code alignment"));
        }
        if self.failed {
            return Err(Error::Poisoned);
        }
        if !self.open {
            return Err(Error::Closed);
        }
        let ghost before = *old(self);
        let place = match self.find_span(size, alignment, tier) {
            Some(place) => place,
            None => {
                proof {
                    assert forall|place: Placement| !#[trigger] before.is_placement(
                        size,
                        alignment,
                        tier,
                        place,
                    ) by {
                        match place.free {
                            Some(k) => {
                                assert(!before.fits_free(
                                    size,
                                    alignment,
                                    tier,
                                    place.segment as int,
                                    k as int,
                                ));
                            },
                            None => {
                                assert(!before.fits_bump(
                                    size,
                                    alignment,
                                    tier,
                                    place.segment as int,
                                ));
                            },
                        }
                    }
                }
                return Err(Error::Capacity("2047 MiB executable window has no fitting span"));
            },
        };
        let index: usize = place.segment;
        proof {
            lemma_placement_unique(before, size, alignment, tier, place);
            lemma_placement_fits(before, size, alignment, tier, place);
            assert(!before.nothing_fits(size, alignment, tier)) by {
                match place.free {
                    Some(k) => {
                        assert(before.fits_free(size, alignment, tier, index as int, k as int));
                    },
                    None => {
                        assert(before.fits_bump(size, alignment, tier, index as int));
                    },
                }
            }
        }
        self.ensure_free_storage(index, tier)?;
        let ghost stored = *self;
        proof {
            assert(same_spans(stored.segments@[index as int], before.segments@[index as int]));
        }
        match self.segments[index].generation {
            Some(generation) => {
                let allocation = self.place(place, size, tier, generation);
                proof {
                    assert forall|i: int| 0 <= i < SEGMENTS && i != index implies same_spans(
                        #[trigger] self.segments@[i],
                        before.segments@[i],
                    ) by {
                        assert(same_spans(stored.segments@[i], before.segments@[i]));
                        assert(same_spans(self.segments@[i], stored.segments@[i]));
                    }
                    assert(self.placed(before, place, size, tier, allocation));
                }
                Ok(AllocateStep::Done(allocation))
            },
            None => {
                let bytes: usize = segment_size(index);
                self.usage.check(bytes, tier)?;
                let generation = match self.generations.next_id() {
                    Ok(generation) => generation,
                    Err(_) => return Err(Error::Capacity("segment generation exhausted")),
                };
                self.usage.committed = self.usage.committed + bytes;
                self.committing = Some(index);
                Ok(AllocateStep::Commit(PendingCommit { placement: place, size, tier, generation }))
            },
        }
    }

    /// Completes an allocation that waited for its segment.
    pub fn finish_commit(&mut self, pending: PendingCommit, outcome: CommitOutcome) -> (r: Result<
        Allocation,
        Error,
    >)
        requires
            old(self).awaits(pending),
        ensures
            final(self).wf(),
            final(self).generations == old(self).generations,
            match outcome {
                CommitOutcome::Committed => {
                    &&& r matches Ok(allocation) && final(self).placed(
                        *old(self),
                        pending.placement,
                        pending.size,
                        pending.tier,
                        allocation,
                    ) && allocation.generation == pending.generation
                    &&& !final(self).failed
                    &&& final(self).usage == old(self).usage
                },
                CommitOutcome::Released(code) => {
                    &&& r matches Err(Error::Host { operation, code: c }) && operation@
                        == "commit executable segment backing"@ && c == code
                    &&& !final(self).failed
                    &&& final(self).same_placements(*old(self))
                    &&& final(self).usage.metadata == old(self).usage.metadata
                },
                CommitOutcome::Stuck(code) => {
                    &&& r matches Err(Error::Host { operation, code: c }) && operation@
                        == "commit executable segment backing"@ && c == code
                    &&& final(self).failed
                    &&& final(self).same_placements(*old(self))
                    &&& final(self).usage == old(self).usage
                },
                CommitOutcome::Unprotected(code) => {
                    &&& r matches Err(Error::Host { operation, code: c }) && operation@
                        == "change executable alias permissions"@ && c == code
                    &&& final(self).failed
                    &&& final(self).usage == old(self).usage
                },
            },
    {
        let index: usize = pending.placement.segment;
        let bytes: usize = segment_size(index);
        let ghost before = *old(self);
        assert(self.segments@[index as int].wf());
        assert(self.segments@[index as int].bump <= segment_extent(index as int) - ISLAND_BYTES);
        proof {
            lemma_bytes_nonnegative(before.segments@, index as int, SEGMENTS as int);
        }
        self.committing = None;
        match outcome {
            CommitOutcome::Committed => {
                self.segments[index].generation = Some(pending.generation);
                proof {
                    assert(self.segments@ =~= before.segments@.update(
                        index as int,
                        self.segments@[index as int],
                    ));
                    lemma_bytes_update(
                        before.segments@,
                        index as int,
                        self.segments@[index as int],
                        SEGMENTS as int,
                    );
                }
                let allocation = self.place(
                    pending.placement,
                    pending.size,
                    pending.tier,
                    pending.generation,
                );
                Ok(allocation)
            },
            CommitOutcome::Released(code) => {
                self.usage.committed = self.usage.committed - bytes;
                Err(Error::Host { operation: "commit executable segment backing", code })
            },
            CommitOutcome::Stuck(code) => {
                self.failed = true;
                Err(Error::Host { operation: "commit executable segment backing", code })
            },
            CommitOutcome::Unprotected(code) => {
                self.segments[index].generation = Some(pending.generation);
                self.failed = true;
                proof {
                    assert(self.segments@ =~= before.segments@.update(
                        index as int,
                        self.segments@[index as int],
                    ));
                    lemma_bytes_update(
                        before.segments@,
                        index as int,
                        self.segments@[index as int],
                        SEGMENTS as int,
                    );
                }
                Err(Error::Host { operation: "change executable alias permissions", code })
            },
        }
    }

    /// Returns the span of a unit that no reader can reach.
    pub fn release(&mut self, allocation: Allocation)
        requires
            old(self).wf(),
            !old(self).failed ==> old(self).holds(allocation),
        ensures
            final(self).wf(),
            old(self).failed ==> *final(self) == *old(self),
            !old(self).failed ==> {
                let index = allocation.segment as int;
                &&& final(self).segments@[index].live_spans() == old(
                    self,
                ).segments@[index].live_spans().remove(allocation.span.start as int)
                &&& final(self).segments@[index].live == old(self).segments@[index].live - 1
                &&& final(self).segments@[index].generation == old(
                    self,
                ).segments@[index].generation
                &&& forall|i: int|
                    0 <= i < SEGMENTS && i != index ==> #[trigger] final(self).segments@[i] == old(
                        self,
                    ).segments@[i]
                &&& final(self).usage == old(self).usage
                &&& final(self).base == old(self).base
                &&& final(self).open == old(self).open
                &&& final(self).leased == old(self).leased
                &&& final(self).fixed == old(self).fixed
                &&& final(self).generations == old(self).generations
                &&& !final(self).failed
            },
    {
        if self.failed {
            return ;
        }
        let ghost before = *old(self);
        let index: usize = allocation.segment;
        assert(self.segments@[index as int].wf());
        assert(self.segments@[index as int].bump <= segment_extent(index as int) - ISLAND_BYTES);
        self.segments[index].release(allocation.span);
        proof {
            assert(self.segments@ =~= before.segments@.update(
                index as int,
                self.segments@[index as int],
            ));
            lemma_bytes_update(
                before.segments@,
                index as int,
                self.segments@[index as int],
                SEGMENTS as int,
            );
        }
    }
}

/// What emptying a segment takes.
#[derive(Clone, Copy, Debug, PartialEq, Eq, Structural)]
pub enum DecommitStep {
    /// The segment still holds live spans.
    Busy,
    /// The segment had no backing and is blank now.
    Done,
    /// The host must release the backing of this segment.
    Release,
}

/// Units start at least on a 16-byte boundary.
pub open spec fn code_alignment(alignment: usize) -> usize {
    if alignment >= 16 {
        alignment
    } else {
        16
    }
}

/// How the copy of a staged unit went.
#[derive(Clone, Copy, Debug)]
pub enum CopyOutcome {
    /// The code is in place and every thread can fetch it.
    Visible,
    /// The copy was not made, or not made visible.
    Refused { operation: &'static str, code: i32 },
    /// The writable view could not be closed after the copy.
    Exposed { operation: &'static str, code: i32 },
}

/// A charge and a place for a unit, before its bytes are copied.
pub struct Staged {
    pub lease: MetadataLease,
    pub step: AllocateStep,
}

impl Cache {
    /// The cache once the empty segment is forgotten, its storage charge returned and
    /// `backing` bytes of backing given back.
    pub open spec fn segment_reset(self, after: Cache, index: int, backing: int) -> bool {
        &&& after == (Cache { segments: after.segments, usage: after.usage, ..self })
        &&& after.segments@.len() == self.segments@.len()
        &&& after.segments@[index].blank()
        &&& forall|i: int|
            0 <= i < SEGMENTS && i != index ==> #[trigger] after.segments@[i] == self.segments@[i]
        &&& after.usage.metadata == self.usage.metadata - self.segments@[index].capacity
            * SPAN_BYTES
        &&& after.usage.committed == self.usage.committed - backing
    }

    /// Forgets an empty segment and returns its storage charge.
    fn reset_segment(&mut self, index: usize)
        requires
            old(self).consistent(),
            index < SEGMENTS,
            old(self).segments@[index as int].live == 0,
        ensures
            final(self).consistent(),
            old(self).segment_reset(*final(self), index as int, 0),
            committed_bytes(final(self).segments@, SEGMENTS as int) == committed_bytes(
                old(self).segments@,
                SEGMENTS as int,
            ) - (if old(self).segments@[index as int].generation is Some {
                segment_extent(index as int)
            } else {
                0
            }),
    {
        let ghost before = self.segments@;
        proof {
            lemma_bytes_nonnegative(before, index as int, SEGMENTS as int);
        }
        let capacity: usize = self.segments[index].capacity;
        self.segments.set(index, Segment::empty());
        self.usage.metadata = self.usage.metadata - capacity * SPAN_BYTES;
        proof {
            assert(self.segments@ =~= before.update(index as int, self.segments@[index as int]));
            lemma_bytes_update(
                before,
                index as int,
                self.segments@[index as int],
                SEGMENTS as int,
            );
        }
    }

    /// Whether a segment can give its backing back. The caller has unpublished the
    /// segment, and no reader can reach it.
    pub fn decommit_empty(&mut self, index: usize) -> (r: Result<DecommitStep, Error>)
        requires
            old(self).wf(),
        ensures
            final(self).wf(),
            if index >= SEGMENTS {
                r matches Err(error) && capacity_error(
                    error,
                    "segment index outside reservation"@,
                ) && *final(self) == *old(self)
            } else if old(self).failed {
                r matches Err(Error::Poisoned) && *final(self) == *old(self)
            } else if old(self).segments@[index as int].live != 0 {
                r == Ok::<DecommitStep, Error>(DecommitStep::Busy) && *final(self) == *old(self)
            } else if old(self).segments@[index as int].generation is Some {
                r == Ok::<DecommitStep, Error>(DecommitStep::Release) && *final(self) == *old(self)
            } else {
                &&& r == Ok::<DecommitStep, Error>(DecommitStep::Done)
                &&& old(self).segment_reset(*final(self), index as int, 0)
            },
    {
        if index >= SEGMENTS {
            return Err(Error::Capacity("segment index outside reservation"));
        }
        if self.failed {
            return Err(Error::Poisoned);
        }
        if self.segments[index].live != 0 {
            return Ok(DecommitStep::Busy);
        }
        if self.segments[index].generation.is_some() {
            return Ok(DecommitStep::Release);
        }
        self.reset_segment(index);
        Ok(DecommitStep::Done)
    }

    /// Records how the host's release of an empty segment ended.
    pub fn finish_decommit(&mut self, index: usize, outcome: Result<(), (&'static str, i32)>) -> (r:
        Result<(), Error>)
        requires
            old(self).wf(),
            !old(self).failed,
            index < SEGMENTS,
            old(self).segments@[index as int].live == 0,
            old(self).segments@[index as int].generation is Some,
        ensures
            final(self).wf(),
            match outcome {
                Ok(_) => {
                    &&& r is Ok
                    &&& old(self).segment_reset(
                        *final(self),
                        index as int,
                        segment_extent(index as int),
                    )
                },
                Err((operation, code)) => {
                    &&& r matches Err(Error::Host { operation: o, code: c }) && o == operation && c
                        == code
                    &&& *final(self) == (Cache { failed: true, ..*old(self) })
                },
            },
    {
        match outcome {
            Err((operation, code)) => {
                self.failed = true;
                Err(Error::Host { operation, code })
            },
            Ok(_) => {
                proof {
                    lemma_bytes_nonnegative(self.segments@, index as int, SEGMENTS as int);
                }
                let bytes: usize = segment_size(index);
                self.usage.committed = self.usage.committed - bytes;
                self.reset_segment(index);
                Ok(())
            },
        }
    }

    /// Closes an idle cache: the reservation is unmapped by the caller when the
    /// answer is `true`. Live spans postpone it.
    pub fn try_close(&mut self) -> (r: Result<bool, Error>)
        requires
            old(self).wf(),
        ensures
            final(self).wf(),
            match r {
                Err(error) => old(self).failed && error is Poisoned && *final(self) == *old(self),
                Ok(closed) => {
                    &&& !old(self).failed
                    &&& closed == (forall|i: int|
                        0 <= i < SEGMENTS ==> (#[trigger] old(self).segments@[i]).live == 0)
                    &&& !closed ==> *final(self) == *old(self)
                    &&& closed ==> {
                        &&& !final(self).open
                        &&& final(self).usage.committed == 0
                        &&& final(self).usage.metadata == old(self).fixed@ + old(self).leased
                        &&& forall|i: int|
                            0 <= i < SEGMENTS ==> (#[trigger] final(self).segments@[i]).blank()
                        &&& final(self).leased == old(self).leased
                        &&& final(self).fixed == old(self).fixed
                        &&& !final(self).failed
                    }
                },
            },
    {
        if self.failed {
            return Err(Error::Poisoned);
        }
        let mut index: usize = 0;
        while index < SEGMENTS
            invariant
                self.wf(),
                !self.failed,
                *self == *old(self),
                index <= SEGMENTS,
                forall|i: int| 0 <= i < index ==> (#[trigger] self.segments@[i]).live == 0,
            decreases SEGMENTS - index,
        {
            if self.segments[index].live != 0 {
                return Ok(false);
            }
            index = index + 1;
        }
        let ghost before = *self;
        self.usage.committed = 0;
        let mut index: usize = 0;
        while index < SEGMENTS
            invariant
                self.consistent(),
                !self.failed,
                self.open == before.open,
                self.committing is None,
                self.usage.committed == 0,
                self.leased == before.leased,
                self.fixed == before.fixed,
                index <= SEGMENTS,
                forall|i: int| 0 <= i < index ==> (#[trigger] self.segments@[i]).blank(),
                forall|i: int| 0 <= i < SEGMENTS ==> (#[trigger] self.segments@[i]).live == 0,
            decreases SEGMENTS - index,
        {
            self.reset_segment(index);
            index = index + 1;
        }
        self.open = false;
        proof {
            lemma_blank_bytes(self.segments@, SEGMENTS as int);
        }
        Ok(true)
    }

    /// Charges and places a unit. Its bytes are staged beside the executable
    /// backing until they are copied, so both are charged meanwhile. A refusal
    /// leaves no charge behind.
    pub fn stage(&mut self, size: usize, alignment: usize, metadata: usize, tier: Tier) -> (r: Result<
        Staged,
        Error,
    >)
        requires
            old(self).wf(),
            size + metadata <= usize::MAX,
        ensures
            match r {
                Ok(staged) => {
                    &&& is_power_of_two(alignment)
                    &&& staged.lease.bytes == size + metadata
                    &&& final(self).leased == old(self).leased + size + metadata
                    &&& match staged.step {
                        AllocateStep::Done(allocation) => {
                            &&& final(self).wf()
                            &&& !final(self).failed
                            &&& final(self).holds(allocation)
                            &&& allocation.span.len == size
                            &&& final(self).address_of(allocation) % (if alignment >= 16 {
                                alignment as int
                            } else {
                                16
                            }) == 0
                        },
                        AllocateStep::Commit(pending) => final(self).awaits(pending) && pending.size
                            == size,
                    }
                },
                Err(_) => {
                    &&& final(self).wf()
                    &&& final(self).same_placements(*old(self))
                    &&& final(self).usage.committed == old(self).usage.committed
                    &&& final(self).failed == old(self).failed
                },
            },
            if !is_power_of_two(alignment) {
                r matches Err(error) && capacity_error(error, "invalid code alignment"@)
            } else if old(self).failed {
                r matches Err(Error::Poisoned)
            } else if limit_fault(old(self).usage.sum() + size + metadata, tier) is Some {
                r matches Err(error) && capacity_error(
                    error,
                    limit_fault(old(self).usage.sum() + size + metadata, tier)->0,
                )
            } else if !old(self).open {
                r matches Err(Error::Closed)
            } else {
                let charged = old(self).charged(size + metadata);
                let wanted = code_alignment(alignment);
                match request_fault(size, wanted) {
                    Some(text) => r matches Err(error) && capacity_error(error, text),
                    None => {
                        &&& charged.nothing_fits(size, wanted, tier) ==> (r matches Err(error)
                            && capacity_error(
                            error,
                            "2047 MiB executable window has no fitting span"@,
                        ))
                        &&& charged.nothing_fits(size, wanted, tier) || exists|place: Placement|
                            #[trigger] charged.is_placement(size, wanted, tier, place)
                        &&& forall|place: Placement| #[trigger]
                            charged.is_placement(size, wanted, tier, place)
                                ==> match charged.place_fault(tier, place) {
                                Some(text) => r matches Err(error) && capacity_error(error, text),
                                None => r is Ok,
                            }
                    },
                }
            },
    {
        if !power_of_two(alignment) {
            return Err(Error::Capacity("invalid code alignment"));
        }
        let lease = self.charge_metadata(metadata + size, tier)?;
        let ghost charged = *self;
        let wanted: usize = if alignment >= 16 {
            alignment
        } else {
            16
        };
        match self.allocate(size, wanted, tier) {
            Ok(step) => {
                proof {
                    assert(is_power_of_two(16)) by {
                        assert(16usize & 15usize == 0) by (bit_vector);
                    }
                    if charged.nothing_fits(size, wanted, tier) {
                    } else {
                        let place = choose|place: Placement| #[trigger]
                            charged.is_placement(size, wanted, tier, place);
                        assert(charged.is_placement(size, wanted, tier, place));
                    }
                }
                Ok(Staged { lease, step })
            },
            Err(error) => {
                self.release_metadata(lease);
                Err(error)
            },
        }
    }

    /// Ends the staging of a unit whose bytes have been copied: only its metadata
    /// stays charged.
    fn finish_install(&mut self, lease: MetadataLease, size: usize) -> (r: MetadataLease)
        requires
            old(self).wf(),
            size <= lease.bytes,
        ensures
            final(self).wf(),
            r.bytes == lease.bytes - size,
            *final(self) == if old(self).failed {
                *old(self)
            } else {
                old(self).charged(-old(self).returnable(size as int))
            },
    {
        let mut lease = lease;
        self.reduce(&mut lease, size);
        lease
    }

    /// Gives up a unit before it was published.
    pub fn abandon(&mut self, allocation: Allocation, lease: MetadataLease)
        requires
            old(self).wf(),
            !old(self).failed,
            old(self).holds(allocation),
            lease.bytes <= old(self).leased,
        ensures
            final(self).wf(),
            !final(self).failed,
            final(self).leased == old(self).leased - lease.bytes,
            final(self).usage.metadata == old(self).usage.metadata - lease.bytes,
            final(self).usage.committed == old(self).usage.committed,
            final(self).segments@[allocation.segment as int].live_spans() == old(
                self,
            ).segments@[allocation.segment as int].live_spans().remove(
                allocation.span.start as int,
            ),
    {
        self.release(allocation);
        self.release_metadata(lease);
    }

    /// Ends the installation of a unit once the host has tried to copy it. Code that
    /// could not be copied or made visible gives its span and charge back. A
    /// writable view that could not be closed again stops all further work, and
    /// nothing is returned to a stopped cache.
    pub fn finish_copy(
        &mut self,
        allocation: Allocation,
        lease: MetadataLease,
        outcome: CopyOutcome,
    ) -> (r: Result<(Allocation, MetadataLease), Error>)
        requires
            old(self).wf(),
            !old(self).failed,
            old(self).holds(allocation),
            allocation.span.len <= lease.bytes <= old(self).leased,
        ensures
            final(self).wf(),
            match outcome {
                CopyOutcome::Visible => {
                    &&& r matches Ok((kept, charge)) && kept == allocation && charge.bytes
                        == lease.bytes - allocation.span.len
                    &&& *final(self) == old(self).charged(-allocation.span.len)
                    &&& final(self).holds(allocation)
                },
                CopyOutcome::Refused { operation, code } => {
                    &&& r matches Err(Error::Host { operation: o, code: c }) && o == operation && c
                        == code
                    &&& !final(self).failed
                    &&& final(self).leased == old(self).leased - lease.bytes
                    &&& final(self).usage.metadata == old(self).usage.metadata - lease.bytes
                    &&& final(self).usage.committed == old(self).usage.committed
                    &&& final(self).segments@[allocation.segment as int].live_spans() == old(
                        self,
                    ).segments@[allocation.segment as int].live_spans().remove(
                        allocation.span.start as int,
                    )
                },
                CopyOutcome::Exposed { operation, code } => {
                    &&& r matches Err(Error::Host { operation: o, code: c }) && o == operation && c
                        == code
                    &&& *final(self) == (Cache { failed: true, ..*old(self) })
                },
            },
    {
        match outcome {
            CopyOutcome::Visible => {
                let size: usize = allocation.span.len;
                let charge = self.finish_install(lease, size);
                Ok((allocation, charge))
            },
            CopyOutcome::Refused { operation, code } => {
                self.abandon(allocation, lease);
                Err(Error::Host { operation, code })
            },
            CopyOutcome::Exposed { operation, code } => {
                self.failed = true;
                Err(Error::Host { operation, code })
            },
        }
    }
}

proof fn lemma_blank_bytes(segments: Seq<Segment>, count: int)
    requires
        0 <= count <= segments.len(),
        forall|i: int| 0 <= i < count ==> (#[trigger] segments[i]).blank(),
    ensures
        committed_bytes(segments, count) == 0,
        storage_bytes(segments, count) == 0,
    decreases count,
{
    if count > 0 {
        lemma_blank_bytes(segments, count - 1);
    }
}

/// Two live units never share a byte, and every unit lies inside its segment's
/// code area, below the island.
pub proof fn law_live_units_never_overlap(cache: Cache, a: Allocation, b: Allocation)
    requires
        cache.wf(),
        cache.holds(a),
        cache.holds(b),
    ensures
        cache.base + a.segment * SEGMENT_BYTES <= cache.address_of(a),
        cache.address_of(a) + a.span.len <= cache.base + a.segment * SEGMENT_BYTES
            + segment_extent(a.segment as int) - ISLAND_BYTES,
        (a.segment != b.segment || a.span.start != b.span.start) ==> cache.address_of(a)
            + a.span.len <= cache.address_of(b) || cache.address_of(b) + b.span.len
            <= cache.address_of(a),
{
    assert(cache.segments@[a.segment as int].wf());
    assert(cache.segments@[b.segment as int].wf());
    assert(cache.segments@[a.segment as int].bump <= segment_extent(a.segment as int)
        - ISLAND_BYTES);
    assert(cache.segments@[b.segment as int].bump <= segment_extent(b.segment as int)
        - ISLAND_BYTES);
    if a.segment < b.segment {
        assert((a.segment + 1) * SEGMENT_BYTES <= b.segment * SEGMENT_BYTES);
    } else if b.segment < a.segment {
        assert((b.segment + 1) * SEGMENT_BYTES <= a.segment * SEGMENT_BYTES);
    }
}

/// A cache that holds no unit has no fragment in any segment, and what it is
/// charged is its backing, its storage and the leases that are still out.
pub proof fn law_returns_to_empty(cache: Cache)
    requires
        cache.wf(),
        !cache.failed,
        forall|i: int| 0 <= i < SEGMENTS ==> (#[trigger] cache.segments@[i]).live == 0,
    ensures
        forall|i: int|
            0 <= i < SEGMENTS ==> (#[trigger] cache.segments@[i]).bump == 0
                && cache.segments@[i].free@.len() == 0,
        cache.usage.committed == committed_bytes(cache.segments@, SEGMENTS as int),
        cache.usage.metadata == cache.fixed@ + cache.leased + storage_bytes(
            cache.segments@,
            SEGMENTS as int,
        ),
{
    assert forall|i: int| 0 <= i < SEGMENTS implies (#[trigger] cache.segments@[i]).bump == 0
        && cache.segments@[i].free@.len() == 0 by {
        law_no_live_span_means_empty(cache.segments@[i]);
    }
}

/// The hard limit holds in every state.
pub proof fn law_hard_limit(cache: Cache)
    requires
        cache.wf(),
    ensures
        cache.usage.committed + cache.usage.metadata <= HARD_BYTES,
{
}

/// At most one place satisfies the policy.
proof fn lemma_placement_unique(
    cache: Cache,
    size: usize,
    alignment: usize,
    tier: Tier,
    place: Placement,
)
    requires
        cache.wf(),
        0 < size <= SEGMENT_BYTES,
        0 < alignment <= SEGMENT_BYTES,
        cache.is_placement(size, alignment, tier, place),
    ensures
        forall|other: Placement| #[trigger]
            cache.is_placement(size, alignment, tier, other) ==> other == place,
{
    assert forall|other: Placement| #[trigger]
        cache.is_placement(size, alignment, tier, other) implies other == place by {
        let (i, j) = (place.segment as int, other.segment as int);
        match (place.free, other.free) {
            (Some(k), Some(m)) => {
                assert(cache.fits_free(size, alignment, tier, i, k as int));
                assert(cache.fits_free(size, alignment, tier, j, m as int));
                assert(cache.segments@[i].wf() && cache.segments@[j].wf());
            },
            (Some(k), None) => {
                assert(cache.fits_free(size, alignment, tier, i, k as int));
            },
            (None, Some(m)) => {
                assert(cache.fits_free(size, alignment, tier, j, m as int));
            },
            (None, None) => {
                assert(cache.fits_bump(size, alignment, tier, i));
                assert(cache.fits_bump(size, alignment, tier, j));
            },
        }
    }
}

proof fn lemma_placement_fits(
    cache: Cache,
    size: usize,
    alignment: usize,
    tier: Tier,
    place: Placement,
)
    requires
        cache.wf(),
        0 < size <= SEGMENT_BYTES,
        0 < alignment <= SEGMENT_BYTES,
        cache.is_placement(size, alignment, tier, place),
    ensures
        place.segment < SEGMENTS,
        (cache.base + place.segment * SEGMENT_BYTES + place.start) % (alignment as int) == 0,
        place.start + size <= segment_extent(place.segment as int) - ISLAND_BYTES,
        match place.free {
            Some(k) => {
                let free = cache.segments@[place.segment as int].free@;
                k < free.len() && free[k as int].start <= place.start && place.start + size
                    <= free[k as int].limit()
            },
            None => cache.segments@[place.segment as int].bump <= place.start,
        },
        cache.segments@[place.segment as int].generation is None ==> place.free is None,
{
    let index = place.segment as int;
    let segment = cache.segments@[index];
    assert(segment.wf() && segment.bump <= segment_extent(index) - ISLAND_BYTES);
    let from = match place.free {
        Some(k) => segment.free@[k as int].start as int,
        None => segment.bump as int,
    };
    lemma_align_up(cache.base + index * SEGMENT_BYTES + from, alignment as int);
    match place.free {
        Some(k) => {
            assert(segment.free@[k as int].limit() < segment.bump);
        },
        None => {},
    }
}

proof fn lemma_live_bounded(segment: Segment)
    requires
        segment.wf(),
    ensures
        segment.live <= segment.bump <= SEGMENT_BYTES,
{
    let live = segment.live_spans();
    let below = vstd::set_lib::set_int_range(0, segment.bump as int);
    vstd::set_lib::lemma_int_range(0, segment.bump as int);
    assert(live.dom().subset_of(below));
    vstd::set_lib::lemma_len_subset(live.dom(), below);
}

proof fn lemma_bytes_prefix(a: Seq<Segment>, b: Seq<Segment>, count: int)
    requires
        0 <= count <= a.len() <= b.len(),
        forall|i: int| 0 <= i < count ==> #[trigger] a[i] == b[i],
    ensures
        committed_bytes(a, count) == committed_bytes(b, count),
        storage_bytes(a, count) == storage_bytes(b, count),
    decreases count,
{
    if count > 0 {
        lemma_bytes_prefix(a, b, count - 1);
    }
}

/// A unit is placed on its alignment, in a segment that holds no code of the other tier,
/// inside its free span or below the island, and no smaller free span would have done.
pub proof fn law_placements_fit_best(
    cache: Cache,
    size: usize,
    alignment: usize,
    tier: Tier,
    place: Placement,
)
    requires
        alignment > 0,
        cache.is_placement(size, alignment, tier, place),
        place.free matches Some(k) ==> start_in(
            cache.base as int,
            place.segment as int,
            cache.segments@[place.segment as int].free@[k as int].start as int,
            alignment as int,
        ) <= usize::MAX,
    ensures
        (cache.base + place.segment * SEGMENT_BYTES + place.start) % (alignment as int) == 0,
        cache.segments@[place.segment as int].live == 0
            || cache.segments@[place.segment as int].tier == Some(tier),
        match place.free {
            Some(k) => {
                let span = cache.segments@[place.segment as int].free@[k as int];
                &&& span.start <= place.start
                &&& place.start + size <= span.limit()
                &&& forall|i: int, j: int| #[trigger]
                    cache.fits_free(size, alignment, tier, i, j) ==> span.len
                        <= cache.segments@[i].free@[j].len
            },
            None => {
                &&& cache.segments@[place.segment as int].bump <= place.start
                &&& place.start + size <= segment_extent(place.segment as int) - ISLAND_BYTES
            },
        },
{
    let index = place.segment as int;
    let from = match place.free {
        Some(k) => cache.segments@[index].free@[k as int].start as int,
        None => cache.segments@[index].bump as int,
    };
    lemma_align_up(cache.base + index * SEGMENT_BYTES + from, alignment as int);
}

/// Storage for the spans of a segment always suffices for one more unit once it has grown,
/// never shrinks, stays as it is where it suffices, and otherwise at least doubles.
pub proof fn law_span_storage_suffices(segment: Segment)
    ensures
        grown_capacity(segment) >= segment.live + 2,
        grown_capacity(segment) >= segment.capacity,
        segment.has_room() <==> grown_capacity(segment) == segment.capacity,
        !segment.has_room() ==> grown_capacity(segment) >= 2 * segment.capacity
            && grown_capacity(segment) >= 8,
        !segment.has_room() ==> grown_capacity(segment) <= 8 || grown_capacity(segment) <= 2
            * segment.capacity || grown_capacity(segment) <= segment.live + 2,
        storage_growth(segment) >= 0,
        segment.has_room() ==> storage_growth(segment) == 0,
        !segment.has_room() ==> storage_growth(segment) > 0,
{
    let more = grown_capacity(segment) - segment.capacity;
    assert(storage_growth(segment) == more * SPAN_BYTES);
}

/// A request that is not refused fits the code area of a segment, and its alignment is met by
/// the alignment that is used, which is never below sixteen bytes.
pub proof fn law_accepted_requests_fit(size: usize, alignment: usize)
    requires
        request_fault(size, alignment) is None,
    ensures
        0 < size,
        size + ISLAND_BYTES <= SEGMENT_BYTES,
        0 < alignment <= SEGMENT_BYTES,
        code_alignment(alignment) >= 16,
        code_alignment(alignment) >= alignment,
        code_alignment(alignment) == alignment || alignment < 16 && code_alignment(alignment) == 16,
{
}

} // verus!
