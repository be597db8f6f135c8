//! Attribution of a faulting native address to its unit and access.

use vstd::prelude::*;
use super::registry::Handle;
use crate::abi::identity::SegmentGeneration;
use crate::executable::cache::MetadataLease;

verus! {

/// The native bytes of one faulting instruction.
#[derive(Clone, Copy, Debug, PartialEq, Eq, Structural)]
pub struct Interval {
    pub start: usize,
    pub end: usize,
    pub unit: Handle,
    /// Index of the unit's fault record.
    pub fault: usize,
}

/// The intervals of one segment, published together with the generation of the
/// segment's storage. The epoch at which it was installed tells two tables of a
/// segment apart.
pub struct Table {
    pub generation: SegmentGeneration,
    pub installed: u64,
    pub intervals: Vec<Interval>,
    pub charge: MetadataLease,
}

/// Intervals in order, without overlap.
pub open spec fn ordered(intervals: Seq<Interval>) -> bool {
    &&& forall|i: int| 0 <= i < intervals.len() ==> (#[trigger] intervals[i]).start < intervals[i].end
    &&& forall|i: int, j: int|
        0 <= i < j < intervals.len() ==> (#[trigger] intervals[i]).end <= (
        #[trigger] intervals[j]).start
}

pub open spec fn covers(interval: Interval, pc: usize) -> bool {
    interval.start <= pc < interval.end
}

impl Table {
    pub open spec fn wf(&self) -> bool {
        ordered(self.intervals@)
    }

    /// The interval that holds an address, found by bisection.
    pub fn find(&self, pc: usize) -> (r: Option<Interval>)
        requires
            self.wf(),
        ensures
            match r {
                Some(interval) => self.intervals@.contains(interval) && covers(interval, pc),
                None => forall|k: int|
                    0 <= k < self.intervals@.len() ==> !covers(#[trigger] self.intervals@[k], pc),
            },
    {
        let mut low: usize = 0;
        let mut high: usize = self.intervals.len();
        while low < high
            invariant
                self.wf(),
                low <= high <= self.intervals@.len(),
                forall|k: int| 0 <= k < low ==> (#[trigger] self.intervals@[k]).start <= pc,
                forall|k: int|
                    high <= k < self.intervals@.len() ==> (#[trigger] self.intervals@[k]).start > pc,
            decreases high - low,
        {
            let middle: usize = low + (high - low) / 2;
            if self.intervals[middle].start <= pc {
                low = middle + 1;
            } else {
                high = middle;
            }
        }
        if low == 0 {
            return None;
        }
        let interval = self.intervals[low - 1];
        if pc >= interval.end {
            return None;
        }
        Some(interval)
    }
}

/// An address lies in at most one interval of a table.
pub proof fn law_attribution_is_unique(table: Table, a: Interval, b: Interval, pc: usize)
    requires
        table.wf(),
        table.intervals@.contains(a),
        table.intervals@.contains(b),
        covers(a, pc),
        covers(b, pc),
    ensures
        a == b,
{
    let i = choose|i: int| 0 <= i < table.intervals@.len() && table.intervals@[i] == a;
    let j = choose|j: int| 0 <= j < table.intervals@.len() && table.intervals@[j] == b;
    if i < j {
        assert(table.intervals@[i].end <= table.intervals@[j].start);
    } else if j < i {
        assert(table.intervals@[j].end <= table.intervals@[i].start);
    }
}

/// Puts an interval into order. Fails where it overlaps one that is there.
pub fn insert_interval(intervals: &mut Vec<Interval>, interval: Interval) -> (r: bool)
    requires
        ordered(old(intervals)@),
        interval.start < interval.end,
    ensures
        r == forall|k: int|
            0 <= k < old(intervals)@.len() ==> (#[trigger] old(intervals)@[k]).end <= interval.start
                || interval.end <= old(intervals)@[k].start,
        ordered(final(intervals)@),
        !r ==> final(intervals)@ == old(intervals)@,
        r ==> exists|at: int|
            0 <= at <= old(intervals)@.len() && final(intervals)@ == #[trigger] old(
                intervals,
            )@.insert(at, interval),
{
    let mut at: usize = 0;
    while at < intervals.len() && intervals[at].end <= interval.start
        invariant
            at <= intervals@.len(),
            intervals@ == old(intervals)@,
            forall|k: int| 0 <= k < at ==> (#[trigger] intervals@[k]).end <= interval.start,
        decreases intervals@.len() - at,
    {
        at = at + 1;
    }
    if at < intervals.len() && intervals[at].start < interval.end {
        return false;
    }
    let ghost before = intervals@;
    intervals.insert(at, interval);
    proof {
        assert(intervals@ =~= before.insert(at as int, interval));
        assert forall|k: int| 0 <= k < before.len() implies (#[trigger] before[k]).end
            <= interval.start || interval.end <= before[k].start by {
            if k > at {
                assert(before[at as int].end <= before[k].start);
            }
        }
        assert forall|i: int, j: int| 0 <= i < j < intervals@.len() implies (
        #[trigger] intervals@[i]).end <= (#[trigger] intervals@[j]).start by {
            let bi = if i < at {
                i
            } else {
                i - 1
            };
            let bj = if j < at {
                j
            } else {
                j - 1
            };
            if i != at {
                assert(before[bi] == intervals@[i]);
            }
            if j != at {
                assert(before[bj] == intervals@[j]);
            }
        }
        assert forall|i: int| 0 <= i < intervals@.len() implies (#[trigger] intervals@[i]).start
            < intervals@[i].end by {
            if i < at {
                assert(before[i] == intervals@[i]);
            } else if i > at {
                assert(before[i - 1] == intervals@[i]);
            }
        }
    }
    true
}

/// The intervals of every other unit.
pub fn without_unit(intervals: &Vec<Interval>, unit: Handle) -> (r: Vec<Interval>)
    requires
        ordered(intervals@),
    ensures
        ordered(r@),
        r@ == intervals@.filter(|interval: Interval| interval.unit != unit),
        forall|interval: Interval|
            r@.contains(interval) <==> intervals@.contains(interval) && interval.unit != unit,
{
    let ghost keep = |interval: Interval| interval.unit != unit;
    let mut r: Vec<Interval> = Vec::new();
    let mut k: usize = 0;
    proof {
        reveal(Seq::filter);
        assert(intervals@.take(0) =~= Seq::<Interval>::empty());
    }
    while k < intervals.len()
        invariant
            k <= intervals@.len(),
            ordered(intervals@),
            keep == (|interval: Interval| interval.unit != unit),
            r@ == intervals@.take(k as int).filter(keep),
            ordered(r@),
            forall|i: int| 0 <= i < r@.len() ==> intervals@.contains(#[trigger] r@[i]),
            forall|i: int| 0 <= i < r@.len() ==> (#[trigger] r@[i]).unit != unit,
            k < intervals@.len() ==> forall|i: int|
                0 <= i < r@.len() ==> (#[trigger] r@[i]).end <= intervals@[k as int].start,
            forall|j: int|
                0 <= j < k && (#[trigger] intervals@[j]).unit != unit ==> r@.contains(
                    intervals@[j],
                ),
        decreases intervals@.len() - k,
    {
        let ghost before = r@;
        let interval = intervals[k];
        if interval.unit != unit {
            r.push(interval);
        }
        proof {
            reveal(Seq::filter);
            assert(intervals@.take(k + 1).drop_last() =~= intervals@.take(k as int));
            assert(intervals@.take(k + 1).last() == interval);
            if k + 1 < intervals@.len() {
                assert forall|i: int| 0 <= i < r@.len() implies (#[trigger] r@[i]).end
                    <= intervals@[k + 1].start by {
                    assert(intervals@[k as int].end <= intervals@[k + 1].start);
                    if i < before.len() {
                        assert(r@[i] == before[i]);
                        assert(intervals@[k as int].start < intervals@[k as int].end);
                    }
                }
            }
            assert forall|j: int|
                0 <= j < k + 1 && (#[trigger] intervals@[j]).unit != unit implies r@.contains(
                intervals@[j],
            ) by {
                if j < k {
                    let i = choose|i: int| 0 <= i < before.len() && before[i] == intervals@[j];
                    assert(before.contains(intervals@[j]));
                    assert(r@[i] == intervals@[j]);
                } else {
                    assert(r@[before.len() as int] == intervals@[j]);
                }
            }
        }
        k = k + 1;
    }
    proof {
        assert(intervals@.take(intervals@.len() as int) =~= intervals@);
    }
    r
}

} // verus!
