//! The spans of one segment.
//!
//! Below the bump offset every byte belongs to exactly one span, live or free.
//! Free spans are sorted and coalesced, and the last byte below the bump offset
//! is live.

use vstd::prelude::*;
use super::Tier;
use crate::abi::identity::SegmentGeneration;

verus! {

#[derive(Clone, Copy, Debug, PartialEq, Eq, Structural)]
pub struct Span {
    pub start: usize,
    pub len: usize,
}

impl Span {
    pub open spec fn limit(self) -> int {
        self.start + self.len
    }

    pub open spec fn has(self, byte: int) -> bool {
        self.start <= byte < self.limit()
    }

    pub fn end(self) -> (r: usize)
        requires
            self.limit() <= usize::MAX,
        ensures
            r == self.limit(),
    {
        self.start + self.len
    }
}

/// Sorted, coalesced and not empty.
pub open spec fn sorted_spans(free: Seq<Span>) -> bool {
    &&& forall|k: int| 0 <= k < free.len() ==> (#[trigger] free[k]).len > 0
    &&& forall|j: int, k: int|
        0 <= j < k < free.len() ==> (#[trigger] free[j]).limit() < (#[trigger] free[k]).start
}

pub open spec fn in_spans(free: Seq<Span>, byte: int) -> bool {
    exists|k: int| 0 <= k < free.len() && (#[trigger] free[k]).has(byte)
}

/// Live spans, by their start.
pub open spec fn in_live(live: Map<int, int>, byte: int) -> bool {
    exists|start: int| #[trigger] live.dom().contains(start) && start <= byte < start + live[start]
}

pub open spec fn live_disjoint(live: Map<int, int>) -> bool {
    forall|a: int, b: int|
        #[trigger] live.dom().contains(a) && #[trigger] live.dom().contains(b) && a < b ==> a
            + live[a] <= b
}

pub struct Segment {
    pub generation: Option<SegmentGeneration>,
    pub tier: Option<Tier>,
    pub bump: usize,
    pub live: usize,
    pub free: Vec<Span>,
    /// Free spans that storage has been charged for. Release never needs more.
    pub capacity: usize,
    /// Length of each live span by its start.
    pub spans: Ghost<Map<int, int>>,
}

impl Segment {
    pub open spec fn live_spans(&self) -> Map<int, int> {
        self.spans@
    }

    pub open spec fn wf(&self) -> bool {
        let live = self.live_spans();
        &&& self.bump <= super::SEGMENT_BYTES
        &&& live.dom().finite()
        &&& live.dom().len() == self.live
        &&& sorted_spans(self.free@)
        &&& forall|k: int| 0 <= k < self.free@.len() ==> (#[trigger] self.free@[k]).limit() < self.bump
        &&& forall|a: int| #[trigger] live.dom().contains(a) ==> 0 <= a && live[a] > 0 && a + live[a]
            <= self.bump
        &&& live_disjoint(live)
        &&& forall|byte: int| #[trigger]
            in_live(live, byte) ==> !in_spans(self.free@, byte)
        &&& forall|byte: int|
            0 <= byte < self.bump ==> #[trigger] in_live(live, byte) || in_spans(self.free@, byte)
        &&& self.live > 0 ==> self.live < self.capacity
        &&& self.generation is None ==> self.bump == 0
        &&& self.live > 0 ==> self.tier is Some
    }

    /// Nothing was ever placed here.
    pub open spec fn blank(&self) -> bool {
        &&& self.generation is None
        &&& self.tier is None
        &&& self.bump == 0
        &&& self.live == 0
        &&& self.free@.len() == 0
        &&& self.capacity == 0
        &&& self.live_spans() == Map::<int, int>::empty()
    }

    pub fn empty() -> (r: Segment)
        ensures
            r.blank(),
            r.wf(),
    {
        let r = Segment {
            generation: None,
            tier: None,
            bump: 0,
            live: 0,
            free: Vec::new(),
            capacity: 0,
            spans: Ghost(Map::empty()),
        };
        proof {
            assert(r.live_spans().dom() =~= Set::<int>::empty());
        }
        r
    }
}

/// Releasing the last live span empties the segment: no fragment stays behind.
pub proof fn law_no_live_span_means_empty(segment: Segment)
    requires
        segment.wf(),
        segment.live == 0,
    ensures
        segment.bump == 0,
        segment.free@.len() == 0,
        segment.live_spans().dom() == Set::<int>::empty(),
{
    let live = segment.live_spans();
    assert(live.dom() =~= Set::<int>::empty());
    if segment.bump > 0 {
        let byte = segment.bump - 1;
        assert(!in_live(live, byte));
        assert(in_spans(segment.free@, byte));
    }
    if segment.free@.len() > 0 {
        assert(segment.free@[0].limit() < segment.bump);
    }
}

/// A live span starts right behind every free span.
proof fn lemma_live_behind_free(segment: Segment, k: int)
    requires
        segment.wf(),
        0 <= k < segment.free@.len(),
    ensures
        segment.live_spans().dom().contains(segment.free@[k].limit()),
{
    let live = segment.live_spans();
    let end = segment.free@[k].limit();
    assert(!in_spans(segment.free@, end)) by {
        if in_spans(segment.free@, end) {
            let j = choose|j: int| 0 <= j < segment.free@.len() && (#[trigger] segment.free@[j]).has(end);
            if j < k {
                assert(segment.free@[j].limit() < segment.free@[k].start);
            } else if j > k {
                assert(segment.free@[k].limit() < segment.free@[j].start);
            }
        }
    }
    assert(in_live(live, end));
    let start = choose|start: int| #[trigger]
        live.dom().contains(start) && start <= end < start + live[start];
    if start < end {
        assert(in_live(live, end - 1));
        assert(segment.free@[k].has(end - 1));
        assert(in_spans(segment.free@, end - 1));
    }
}

spec fn ends(free: Seq<Span>, count: int) -> Set<int>
    decreases count,
{
    if count <= 0 {
        Set::empty()
    } else {
        ends(free, count - 1).insert(free[count - 1].limit())
    }
}

proof fn lemma_ends(segment: Segment, count: int)
    requires
        segment.wf(),
        0 <= count <= segment.free@.len(),
    ensures
        ends(segment.free@, count).finite(),
        ends(segment.free@, count).len() == count,
        ends(segment.free@, count).subset_of(segment.live_spans().dom()),
        forall|end: int| #[trigger]
            ends(segment.free@, count).contains(end) ==> exists|k: int|
                0 <= k < count && end == (#[trigger] segment.free@[k]).limit(),
    decreases count,
{
    if count > 0 {
        lemma_ends(segment, count - 1);
        lemma_live_behind_free(segment, count - 1);
        let last = segment.free@[count - 1].limit();
        let before = ends(segment.free@, count - 1);
        if before.contains(last) {
            let k = choose|k: int|
                0 <= k < count - 1 && last == (#[trigger] segment.free@[k]).limit();
            assert(segment.free@[k].limit() < segment.free@[count - 1].start);
        }
        assert forall|end: int| #[trigger] ends(segment.free@, count).contains(
            end,
        ) implies exists|k: int| 0 <= k < count && end == (#[trigger] segment.free@[k]).limit() by {
            if before.contains(end) {
                let k = choose|k: int|
                    0 <= k < count - 1 && end == (#[trigger] segment.free@[k]).limit();
                assert(end == segment.free@[k].limit());
            } else {
                assert(end == segment.free@[count - 1].limit());
            }
        }
    }
}

/// There are never more free spans than live ones.
pub proof fn law_free_spans_bounded_by_live(segment: Segment)
    requires
        segment.wf(),
    ensures
        segment.free@.len() <= segment.live,
{
    lemma_ends(segment, segment.free@.len() as int);
    vstd::set_lib::lemma_len_subset(
        ends(segment.free@, segment.free@.len() as int),
        segment.live_spans().dom(),
    );
}

/// The span touches no free byte.
pub open spec fn apart(free: Seq<Span>, span: Span) -> bool {
    forall|k: int|
        0 <= k < free.len() ==> (#[trigger] free[k]).limit() <= span.start || span.limit()
            <= free[k].start
}

/// Where a span belongs among sorted spans that it does not touch.
pub open spec fn belongs_at(free: Seq<Span>, span: Span, at: int) -> bool {
    &&& 0 <= at <= free.len()
    &&& span.len > 0
    &&& forall|k: int| 0 <= k < at ==> (#[trigger] free[k]).limit() <= span.start
    &&& forall|k: int| at <= k < free.len() ==> span.limit() <= (#[trigger] free[k]).start
}

/// The free spans with one more at `at`, joined with its neighbours.
pub open spec fn spans_with(free: Seq<Span>, span: Span, at: int) -> Seq<Span> {
    let left = at > 0 && free[at - 1].limit() == span.start;
    let right = at < free.len() && span.limit() == free[at].start;
    if left && right {
        free.remove(at).update(
            at - 1,
            Span {
                start: free[at - 1].start,
                len: (free[at - 1].len + span.len + free[at].len) as usize,
            },
        )
    } else if left {
        free.update(
            at - 1,
            Span { start: free[at - 1].start, len: (free[at - 1].len + span.len) as usize },
        )
    } else if right {
        free.update(at, Span { start: span.start, len: (span.len + free[at].len) as usize })
    } else {
        free.insert(at, span)
    }
}

spec fn adds_span(before: Seq<Span>, after: Seq<Span>, span: Span) -> bool {
    &&& sorted_spans(after)
    &&& forall|byte: int| #[trigger]
        in_spans(after, byte) == (in_spans(before, byte) || span.has(byte))
}

proof fn lemma_inserted(before: Seq<Span>, after: Seq<Span>, span: Span, at: int)
    requires
        sorted_spans(before),
        belongs_at(before, span, at),
        at > 0 ==> before[at - 1].limit() < span.start,
        at < before.len() ==> span.limit() < before[at].start,
        after == before.insert(at, span),
    ensures
        adds_span(before, after, span),
{
    assert forall|k: int| 0 <= k < after.len() implies #[trigger] after[k] == (if k < at {
        before[k]
    } else if k == at {
        span
    } else {
        before[k - 1]
    }) by {}
    assert forall|byte: int| #[trigger] in_spans(after, byte) == (in_spans(before, byte)
        || span.has(byte)) by {
        if in_spans(after, byte) {
            let k = choose|k: int| 0 <= k < after.len() && (#[trigger] after[k]).has(byte);
            if k < at {
                assert(before[k].has(byte));
            } else if k > at {
                assert(before[k - 1].has(byte));
            }
        }
        if in_spans(before, byte) {
            let k = choose|k: int| 0 <= k < before.len() && (#[trigger] before[k]).has(byte);
            if k < at {
                assert(after[k].has(byte));
            } else {
                assert(after[k + 1].has(byte));
            }
        }
        if span.has(byte) {
            assert(after[at].has(byte));
        }
    }
    assert forall|j: int, k: int| 0 <= j < k < after.len() implies (#[trigger] after[j]).limit() < (
    #[trigger] after[k]).start by {
        if j < at && k == at {
            if j < at - 1 {
                assert(before[j].limit() < before[at - 1].start);
            }
        } else if j == at {
            if k - 1 > at {
                assert(before[at].limit() < before[k - 1].start);
            }
        }
    }
}

/// One span of `before` grows to take in `span`.
proof fn lemma_grown(before: Seq<Span>, after: Seq<Span>, at: int, span: Span)
    requires
        sorted_spans(before),
        0 <= at < before.len(),
        after.len() == before.len(),
        forall|k: int| 0 <= k < before.len() && k != at ==> #[trigger] after[k] == before[k],
        after[at].len > 0,
        at > 0 ==> before[at - 1].limit() < after[at].start,
        at + 1 < before.len() ==> after[at].limit() < before[at + 1].start,
        forall|byte: int| #[trigger]
            after[at].has(byte) == (before[at].has(byte) || span.has(byte)),
    ensures
        adds_span(before, after, span),
{
    assert forall|byte: int| #[trigger] in_spans(after, byte) == (in_spans(before, byte)
        || span.has(byte)) by {
        if in_spans(after, byte) {
            let k = choose|k: int| 0 <= k < after.len() && (#[trigger] after[k]).has(byte);
            if k != at {
                assert(before[k].has(byte));
            } else {
                assert(after[at].has(byte));
            }
        }
        if in_spans(before, byte) {
            let k = choose|k: int| 0 <= k < before.len() && (#[trigger] before[k]).has(byte);
            assert(after[k].has(byte));
        }
        if span.has(byte) {
            assert(after[at].has(byte));
        }
    }
    assert forall|j: int, k: int| 0 <= j < k < after.len() implies (#[trigger] after[j]).limit() < (
    #[trigger] after[k]).start by {
        if k == at && j < at - 1 {
            assert(before[j].limit() < before[at - 1].start);
        } else if j == at && k > at + 1 {
            assert(before[at + 1].limit() < before[k].start);
        }
    }
}

/// The span fills the gap between two spans of `before`.
proof fn lemma_joined(before: Seq<Span>, after: Seq<Span>, span: Span, at: int)
    requires
        sorted_spans(before),
        0 < at < before.len(),
        before[at - 1].limit() == span.start,
        span.limit() == before[at].start,
        after.len() == before.len() - 1,
        forall|k: int| 0 <= k < at - 1 ==> #[trigger] after[k] == before[k],
        forall|k: int| at <= k < after.len() ==> #[trigger] after[k] == before[k + 1],
        after[at - 1].start == before[at - 1].start,
        after[at - 1].limit() == before[at].limit(),
    ensures
        adds_span(before, after, span),
{
    assert forall|byte: int| #[trigger] in_spans(after, byte) == (in_spans(before, byte)
        || span.has(byte)) by {
        if in_spans(after, byte) {
            let k = choose|k: int| 0 <= k < after.len() && (#[trigger] after[k]).has(byte);
            if k < at - 1 {
                assert(before[k].has(byte));
            } else if k > at - 1 {
                assert(before[k + 1].has(byte));
            } else {
                assert(before[at - 1].has(byte) || span.has(byte) || before[at].has(byte));
            }
        }
        if in_spans(before, byte) {
            let k = choose|k: int| 0 <= k < before.len() && (#[trigger] before[k]).has(byte);
            if k < at - 1 {
                assert(after[k].has(byte));
            } else if k > at {
                assert(after[k - 1].has(byte));
            } else {
                assert(after[at - 1].has(byte));
            }
        }
        if span.has(byte) {
            assert(after[at - 1].has(byte));
        }
    }
    assert forall|j: int, k: int| 0 <= j < k < after.len() implies (#[trigger] after[j]).limit() < (
    #[trigger] after[k]).start by {
        if k < at - 1 {
            assert(before[j].limit() < before[k].start);
        } else if k == at - 1 {
            assert(before[j].limit() < before[at - 1].start);
        } else if j < at - 1 {
            assert(before[j].limit() < before[k + 1].start);
        } else if j == at - 1 {
            assert(before[at].limit() < before[k + 1].start);
        } else {
            assert(before[j + 1].limit() < before[k + 1].start);
        }
    }
}

/// Freeing a span keeps the free spans sorted and coalesced. They cover exactly what
/// they covered before and the span, and there is at most one more.
pub proof fn law_free_spans_stay_coalesced(free: Seq<Span>, span: Span, at: int)
    requires
        sorted_spans(free),
        belongs_at(free, span, at),
        span.limit() <= usize::MAX,
        forall|k: int| 0 <= k < free.len() ==> (#[trigger] free[k]).limit() <= usize::MAX,
    ensures
        sorted_spans(spans_with(free, span, at)),
        forall|byte: int| #[trigger]
            in_spans(spans_with(free, span, at), byte) == (in_spans(free, byte) || span.has(byte)),
        spans_with(free, span, at).len() <= free.len() + 1,
{
    let after = spans_with(free, span, at);
    let left = at > 0 && free[at - 1].limit() == span.start;
    let right = at < free.len() && span.limit() == free[at].start;
    if left && right {
        assert(free[at].limit() <= usize::MAX);
        lemma_joined(free, after, span, at);
    } else if left {
        if at < free.len() {
            assert(span.limit() <= free[at].start);
        }
        if at > 1 {
            assert(free[at - 2].limit() < free[at - 1].start);
        }
        lemma_grown(free, after, at - 1, span);
    } else if right {
        assert(free[at].limit() <= usize::MAX);
        if at > 0 {
            assert(free[at - 1].limit() <= span.start);
        }
        if at + 1 < free.len() {
            assert(free[at].limit() < free[at + 1].start);
        }
        lemma_grown(free, after, at, span);
    } else {
        if at > 0 {
            assert(free[at - 1].limit() <= span.start);
        }
        if at < free.len() {
            assert(span.limit() <= free[at].start);
        }
        lemma_inserted(free, after, span, at);
    }
}

impl Segment {
    /// Adds a span to the free spans and joins it with its neighbours.
    pub fn insert_free(&mut self, span: Span)
        requires
            sorted_spans(old(self).free@),
            apart(old(self).free@, span),
            span.limit() <= usize::MAX,
            forall|k: int|
                0 <= k < old(self).free@.len() ==> (#[trigger] old(self).free@[k]).limit()
                    <= usize::MAX,
        ensures
            *final(self) == (Segment { free: final(self).free, ..*old(self) }),
            sorted_spans(final(self).free@),
            forall|byte: int| #[trigger]
                in_spans(final(self).free@, byte) == (in_spans(old(self).free@, byte) || span.has(
                    byte,
                )),
            final(self).free@.len() <= old(self).free@.len() + 1,
            span.len == 0 ==> final(self).free == old(self).free,
            span.len > 0 ==> exists|at: int| #[trigger]
                belongs_at(old(self).free@, span, at) && final(self).free@ == spans_with(
                    old(self).free@,
                    span,
                    at,
                ),
    {
        join_free(&mut self.free, span);
    }
}

fn join_free(free: &mut Vec<Span>, span: Span)
    requires
        sorted_spans(old(free)@),
        apart(old(free)@, span),
        span.limit() <= usize::MAX,
        forall|k: int| 0 <= k < old(free)@.len() ==> (#[trigger] old(free)@[k]).limit() <= usize::MAX,
    ensures
        sorted_spans(final(free)@),
        forall|byte: int| #[trigger]
            in_spans(final(free)@, byte) == (in_spans(old(free)@, byte) || span.has(byte)),
        final(free)@.len() <= old(free)@.len() + 1,
        span.len == 0 ==> *final(free) == *old(free),
        span.len > 0 ==> exists|at: int| #[trigger]
            belongs_at(old(free)@, span, at) && final(free)@ == spans_with(old(free)@, span, at),
{
    if span.len == 0 {
        return;
    }
    let ghost before = free@;
    let mut index: usize = 0;
    while index < free.len() && free[index].start < span.start
        invariant
            index <= free@.len(),
            free@ == before,
            forall|k: int| 0 <= k < index ==> (#[trigger] free@[k]).start < span.start,
        decreases free@.len() - index,
    {
        index = index + 1;
    }
    let ghost at = index as int;
    proof {
        assert forall|k: int| at <= k < before.len() implies span.limit() <= (#[trigger] before[k]).start by {
            if k > at {
                assert(before[at].limit() < before[k].start);
            }
            assert(before[k].limit() <= span.start || span.limit() <= before[k].start);
        }
        assert forall|k: int| 0 <= k < at implies (#[trigger] before[k]).limit() <= span.start by {
            assert(before[k].limit() <= span.start || span.limit() <= before[k].start);
        }
        assert(belongs_at(before, span, at));
    }
    let joins_left = index > 0 && free[index - 1].end() == span.start;
    let joins_right = index < free.len() && span.end() == free[index].start;
    if joins_left && joins_right {
        let right = free.remove(index);
        let left = free[index - 1];
        assert(left == before[at - 1] && right == before[at]);
        assert(right.limit() <= usize::MAX);
        free.set(index - 1, Span { start: left.start, len: left.len + span.len + right.len });
    } else if joins_left {
        let left = free[index - 1];
        free.set(index - 1, Span { start: left.start, len: left.len + span.len });
    } else if joins_right {
        let right = free[index];
        assert(right.limit() <= usize::MAX);
        free.set(index, Span { start: span.start, len: span.len + right.len });
    } else {
        free.insert(index, span);
    }
    proof {
        assert(free@ =~= spans_with(before, span, at));
        law_free_spans_stay_coalesced(before, span, at);
    }
}

proof fn lemma_live_insert(live: Map<int, int>, start: int, size: int)
    requires
        !live.dom().contains(start),
    ensures
        forall|byte: int| #[trigger]
            in_live(live.insert(start, size), byte) == (in_live(live, byte) || start <= byte < start
                + size),
{
    let after = live.insert(start, size);
    assert forall|byte: int| #[trigger] in_live(after, byte) == (in_live(live, byte) || start
        <= byte < start + size) by {
        if in_live(after, byte) {
            let a = choose|a: int| #[trigger]
                after.dom().contains(a) && a <= byte < a + after[a];
            if a != start {
                assert(live.dom().contains(a));
            }
        }
        if in_live(live, byte) {
            let a = choose|a: int| #[trigger] live.dom().contains(a) && a <= byte < a + live[a];
            assert(after.dom().contains(a) && after[a] == live[a]);
        }
        if start <= byte < start + size {
            assert(after.dom().contains(start));
        }
    }
}

proof fn lemma_live_remove(live: Map<int, int>, start: int)
    requires
        live.dom().contains(start),
        live_disjoint(live),
        forall|a: int| #[trigger] live.dom().contains(a) ==> live[a] > 0,
    ensures
        forall|byte: int| #[trigger]
            in_live(live.remove(start), byte) == (in_live(live, byte) && !(start <= byte < start
                + live[start])),
{
    let after = live.remove(start);
    assert forall|byte: int| #[trigger] in_live(after, byte) == (in_live(live, byte) && !(start
        <= byte < start + live[start])) by {
        if in_live(after, byte) {
            let a = choose|a: int| #[trigger]
                after.dom().contains(a) && a <= byte < a + after[a];
            assert(live.dom().contains(a));
            if a < start {
                assert(a + live[a] <= start);
            } else {
                assert(start + live[start] <= a);
            }
        }
        if in_live(live, byte) && !(start <= byte < start + live[start]) {
            let a = choose|a: int| #[trigger] live.dom().contains(a) && a <= byte < a + live[a];
            assert(after.dom().contains(a));
        }
    }
}

/// A range of free bytes overlaps no live span.
proof fn lemma_free_range_is_new(segment: Segment, start: int, size: int)
    requires
        segment.wf(),
        size > 0,
        start >= 0,
        forall|byte: int|
            start <= byte < start + size ==> byte >= segment.bump || #[trigger] in_spans(
                segment.free@,
                byte,
            ),
    ensures
        !segment.live_spans().dom().contains(start),
        live_disjoint(segment.live_spans().insert(start, size)),
{
    let live = segment.live_spans();
    assert forall|a: int| #[trigger] live.dom().contains(a) implies a + live[a] <= start || start
        + size <= a by {
        if a + live[a] > start && start + size > a {
            let byte = if a <= start {
                start
            } else {
                a
            };
            assert(a <= byte < a + live[a]);
            assert(in_live(live, byte));
            assert(byte < segment.bump);
            assert(in_spans(segment.free@, byte));
        }
    }
    if live.dom().contains(start) {
        assert(live[start] > 0);
    }
}

impl Segment {
    /// Storage suffices for one more live span.
    pub open spec fn has_room(&self) -> bool {
        self.live + 2 <= self.capacity
    }

    /// Takes `[start, start + size)` out of free span `index`.
    pub fn place_in_free(&mut self, index: usize, start: usize, size: usize, tier: Tier)
        requires
            old(self).wf(),
            old(self).has_room(),
            old(self).generation is Some,
            index < old(self).free@.len(),
            size > 0,
            old(self).free@[index as int].start <= start,
            start + size <= old(self).free@[index as int].limit(),
        ensures
            final(self).wf(),
            final(self).live_spans() == old(self).live_spans().insert(start as int, size as int),
            !old(self).live_spans().dom().contains(start as int),
            final(self).live == old(self).live + 1,
            final(self).tier == Some(tier),
            final(self).bump == old(self).bump,
            final(self).generation == old(self).generation,
            final(self).capacity == old(self).capacity,
            forall|byte: int| #[trigger]
                in_spans(final(self).free@, byte) == (in_spans(old(self).free@, byte) && !(start
                    <= byte < start + size)),
    {
        let ghost before = *old(self);
        let ghost at = index as int;
        let ghost old_free = self.free@;
        let free = self.free.remove(index);
        let ghost rest = self.free@;
        proof {
            assert(free == old_free[at]);
            assert(rest =~= old_free.remove(at));
            assert forall|k: int| 0 <= k < rest.len() implies #[trigger] rest[k] == (if k < at {
                old_free[k]
            } else {
                old_free[k + 1]
            }) by {}
            assert forall|byte: int| #[trigger] in_spans(rest, byte) == (in_spans(old_free, byte)
                && !free.has(byte)) by {
                if in_spans(rest, byte) {
                    let k = choose|k: int| 0 <= k < rest.len() && (#[trigger] rest[k]).has(byte);
                    if k < at {
                        assert(old_free[k].has(byte));
                        assert(old_free[k].limit() < old_free[at].start);
                    } else {
                        assert(old_free[k + 1].has(byte));
                        assert(old_free[at].limit() < old_free[k + 1].start);
                    }
                }
                if in_spans(old_free, byte) && !free.has(byte) {
                    let k = choose|k: int|
                        0 <= k < old_free.len() && (#[trigger] old_free[k]).has(byte);
                    if k < at {
                        assert(rest[k].has(byte));
                    } else {
                        assert(rest[k - 1].has(byte));
                    }
                }
            }
            assert forall|k: int| 0 <= k < rest.len() implies (#[trigger] rest[k]).limit()
                <= free.start || free.limit() <= rest[k].start by {
                if k < at {
                    assert(old_free[k].limit() < old_free[at].start);
                } else {
                    assert(old_free[at].limit() < old_free[k + 1].start);
                }
            }
            assert(sorted_spans(rest));
        }
        let head = Span { start: free.start, len: start - free.start };
        self.insert_free(head);
        let ghost middle = self.free@;
        proof {
            assert forall|k: int| 0 <= k < middle.len() implies (#[trigger] middle[k]).limit()
                <= usize::MAX by {
                let last = middle[k].limit() - 1;
                assert(middle[k].has(last));
                assert(in_spans(middle, last));
                if in_spans(rest, last) {
                    let j = choose|j: int| 0 <= j < rest.len() && (#[trigger] rest[j]).has(last);
                }
            }
        }
        let tail = Span { start: start + size, len: free.start + free.len - start - size };
        proof {
            assert forall|k: int| 0 <= k < middle.len() implies (#[trigger] middle[k]).limit()
                <= tail.start || tail.limit() <= middle[k].start by {
                let m = middle[k];
                if m.limit() > tail.start && tail.limit() > m.start {
                    // Some byte of the span would lie in the tail, or the span
                    // would reach over the removed middle.
                    let byte = if m.start >= tail.start {
                        m.start as int
                    } else {
                        tail.start as int
                    };
                    if tail.len > 0 {
                        assert(m.has(byte));
                        assert(in_spans(middle, byte));
                        assert(free.has(byte));
                        assert(!in_spans(rest, byte));
                        assert(!head.has(byte));
                    } else {
                        assert(m.has(start + size - 1));
                        assert(in_spans(middle, start + size - 1));
                        assert(free.has(start + size - 1));
                    }
                }
            }
        }
        self.insert_free(tail);
        self.live = self.live + 1;
        self.tier = Some(tier);
        proof {
            assert forall|byte: int| start <= byte < start + size implies byte >= before.bump
                || #[trigger] in_spans(before.free@, byte) by {
                assert(before.free@[at].has(byte));
            }
            lemma_free_range_is_new(before, start as int, size as int);
            lemma_live_insert(before.live_spans(), start as int, size as int);
            self.spans@ = before.live_spans().insert(start as int, size as int);
            assert forall|byte: int| #[trigger] in_spans(self.free@, byte) == (in_spans(
                before.free@,
                byte,
            ) && !(start <= byte < start + size)) by {
                assert(in_spans(middle, byte) == (in_spans(rest, byte) || head.has(byte)));
                if free.has(byte) {
                    assert(before.free@[at].has(byte));
                }
            }
            assert forall|k: int| 0 <= k < self.free@.len() implies (#[trigger] self.free@[k]).limit()
                < self.bump by {
                let last = self.free@[k].limit() - 1;
                assert(self.free@[k].has(last));
                assert(in_spans(self.free@, last));
                let j = choose|j: int|
                    0 <= j < before.free@.len() && (#[trigger] before.free@[j]).has(last);
                assert(before.free@[j].limit() < before.bump);
            }
            assert forall|byte: int| #[trigger] in_live(self.live_spans(), byte) implies !in_spans(
                self.free@,
                byte,
            ) by {
                assert(in_live(before.live_spans(), byte) || start <= byte < start + size);
            }
            assert forall|byte: int| 0 <= byte < self.bump implies #[trigger] in_live(
                self.live_spans(),
                byte,
            ) || in_spans(self.free@, byte) by {
                assert(in_live(before.live_spans(), byte) || in_spans(before.free@, byte));
            }
            assert(before.free@[at].limit() < before.bump);
        }
    }

    /// Takes `[start, start + size)` above the bump offset; the gap below it
    /// becomes free.
    pub fn place_at_bump(&mut self, start: usize, size: usize, tier: Tier)
        requires
            old(self).wf(),
            old(self).has_room(),
            old(self).generation is Some,
            size > 0,
            old(self).bump <= start,
            start + size <= super::SEGMENT_BYTES,
        ensures
            final(self).wf(),
            final(self).live_spans() == old(self).live_spans().insert(start as int, size as int),
            !old(self).live_spans().dom().contains(start as int),
            final(self).live == old(self).live + 1,
            final(self).tier == Some(tier),
            final(self).bump == start + size,
            final(self).generation == old(self).generation,
            final(self).capacity == old(self).capacity,
            forall|byte: int| #[trigger]
                in_spans(final(self).free@, byte) == (in_spans(old(self).free@, byte) || old(
                    self,
                ).bump <= byte < start),
    {
        let ghost before = *old(self);
        let gap = Span { start: self.bump, len: start - self.bump };
        self.insert_free(gap);
        self.bump = start + size;
        self.live = self.live + 1;
        self.tier = Some(tier);
        proof {
            assert forall|byte: int| start <= byte < start + size implies byte >= before.bump
                || #[trigger] in_spans(before.free@, byte) by {}
            lemma_free_range_is_new(before, start as int, size as int);
            lemma_live_insert(before.live_spans(), start as int, size as int);
            self.spans@ = before.live_spans().insert(start as int, size as int);
            assert forall|k: int| 0 <= k < self.free@.len() implies (#[trigger] self.free@[k]).limit()
                < self.bump by {
                let last = self.free@[k].limit() - 1;
                assert(self.free@[k].has(last));
                assert(in_spans(self.free@, last));
                if in_spans(before.free@, last) {
                    let j = choose|j: int|
                        0 <= j < before.free@.len() && (#[trigger] before.free@[j]).has(last);
                    assert(before.free@[j].limit() < before.bump);
                }
            }
            assert forall|byte: int| #[trigger] in_live(self.live_spans(), byte) implies !in_spans(
                self.free@,
                byte,
            ) by {
                assert(in_live(before.live_spans(), byte) || start <= byte < start + size);
                if in_live(before.live_spans(), byte) {
                    let a = choose|a: int| #[trigger]
                        before.live_spans().dom().contains(a) && a <= byte < a
                            + before.live_spans()[a];
                    assert(byte < before.bump);
                }
                if in_spans(before.free@, byte) {
                    let j = choose|j: int|
                        0 <= j < before.free@.len() && (#[trigger] before.free@[j]).has(byte);
                    assert(before.free@[j].limit() < before.bump);
                }
            }
            assert forall|byte: int| 0 <= byte < self.bump implies #[trigger] in_live(
                self.live_spans(),
                byte,
            ) || in_spans(self.free@, byte) by {
                if byte < before.bump {
                    assert(in_live(before.live_spans(), byte) || in_spans(before.free@, byte));
                }
            }
        }
    }

    /// Returns a live span. Free bytes at the end fall below the bump offset.
    pub fn release(&mut self, span: Span)
        requires
            old(self).wf(),
            old(self).live_spans().dom().contains(span.start as int),
            old(self).live_spans()[span.start as int] == span.len,
        ensures
            final(self).wf(),
            final(self).live_spans() == old(self).live_spans().remove(span.start as int),
            final(self).live == old(self).live - 1,
            final(self).tier == old(self).tier,
            final(self).generation == old(self).generation,
            final(self).capacity == old(self).capacity,
            final(self).bump <= old(self).bump,
    {
        let ghost before = *old(self);
        let ghost live = self.live_spans();
        let ghost start = span.start as int;
        proof {
            assert forall|k: int| 0 <= k < self.free@.len() implies (#[trigger] self.free@[k]).limit()
                <= span.start || span.limit() <= self.free@[k].start by {
                let f = self.free@[k];
                if f.limit() > span.start && span.limit() > f.start {
                    let byte = if f.start >= span.start {
                        f.start as int
                    } else {
                        span.start as int
                    };
                    assert(f.has(byte));
                    assert(in_spans(self.free@, byte));
                    assert(start <= byte < start + live[start]);
                    assert(in_live(live, byte));
                }
            }
            assert(live.dom().len() > 0);
        }
        self.insert_free(span);
        let ghost merged = self.free@;
        self.live = self.live - 1;
        proof {
            lemma_live_remove(live, start);
            self.spans@ = live.remove(start);
            assert forall|k: int| 0 <= k < merged.len() implies (#[trigger] merged[k]).limit()
                <= before.bump by {
                let last = merged[k].limit() - 1;
                assert(merged[k].has(last));
                assert(in_spans(merged, last));
                if in_spans(before.free@, last) {
                    let j = choose|j: int|
                        0 <= j < before.free@.len() && (#[trigger] before.free@[j]).has(last);
                    assert(before.free@[j].limit() < before.bump);
                }
            }
            assert forall|byte: int| #[trigger] in_live(self.live_spans(), byte) implies !in_spans(
                merged,
                byte,
            ) by {
                assert(in_live(live, byte));
            }
            assert forall|byte: int| 0 <= byte < before.bump implies #[trigger] in_live(
                self.live_spans(),
                byte,
            ) || in_spans(merged, byte) by {
                assert(in_live(live, byte) || in_spans(before.free@, byte));
            }
        }
        let count: usize = self.free.len();
        if count != 0 && self.free[count - 1].end() == self.bump {
            let last = self.free[count - 1];
            self.bump = last.start;
            let dropped = self.free.pop();
            proof {
                let kept = self.free@;
                assert(kept =~= merged.drop_last());
                assert forall|k: int| 0 <= k < kept.len() implies #[trigger] kept[k] == merged[k]
                    && kept[k].limit() < self.bump by {
                    assert(merged[k].limit() < merged[merged.len() - 1].start);
                }
                assert forall|byte: int| #[trigger] in_spans(kept, byte) == (in_spans(merged, byte)
                    && byte < self.bump) by {
                    if in_spans(kept, byte) {
                        let k = choose|k: int| 0 <= k < kept.len() && (#[trigger] kept[k]).has(byte);
                        assert(merged[k].has(byte));
                    }
                    if in_spans(merged, byte) && byte < self.bump {
                        let k = choose|k: int|
                            0 <= k < merged.len() && (#[trigger] merged[k]).has(byte);
                        assert(k < kept.len());
                        assert(kept[k].has(byte));
                    }
                }
                let rest = self.live_spans();
                assert forall|a: int| #[trigger] rest.dom().contains(a) implies 0 <= a && rest[a]
                    > 0 && a + rest[a] <= self.bump by {
                    assert(live.dom().contains(a));
                    if a + rest[a] > self.bump {
                        let byte = a + rest[a] - 1;
                        assert(in_live(rest, byte));
                        assert(merged[merged.len() - 1].has(byte));
                        assert(in_spans(merged, byte));
                    }
                }
                assert forall|byte: int| 0 <= byte < self.bump implies #[trigger] in_live(
                    rest,
                    byte,
                ) || in_spans(kept, byte) by {}
                assert(sorted_spans(kept));
                assert(self.wf());
            }
        } else {
            proof {
                assert forall|k: int| 0 <= k < merged.len() implies (#[trigger] merged[k]).limit()
                    < self.bump by {
                    if k < merged.len() - 1 {
                        assert(merged[k].limit() < merged[merged.len() - 1].start);
                    }
                }
                assert forall|a: int| #[trigger] self.live_spans().dom().contains(a) implies 0 <= a
                    && self.live_spans()[a] > 0 && a + self.live_spans()[a] <= self.bump by {
                    assert(live.dom().contains(a));
                }
                assert(self.wf());
            }
        }
    }
}

} // verus!
