//! Which blocks every path to a block goes through.

use vstd::prelude::*;
use super::region::{flows, names_index, Region, RegionBlock};

verus! {

/// A path through the blocks.
pub open spec fn is_path(blocks: Seq<RegionBlock>, path: Seq<int>) -> bool {
    &&& path.len() > 0
    &&& forall|k: int| 0 <= k < path.len() ==> 0 <= #[trigger] path[k] < blocks.len()
    &&& forall|k: int| 0 <= k < path.len() - 1 ==> #[trigger] step_flows(blocks, path, k)
}

pub open spec fn step_flows(blocks: Seq<RegionBlock>, path: Seq<int>, k: int) -> bool {
    flows(blocks, path[k], path[k + 1])
}

/// `d` is in the row of block `b`.
pub open spec fn member(rows: Seq<Vec<bool>>, b: int, d: int) -> bool {
    rows[b]@[d]
}

/// The rows that follow from the rows of the predecessors: a block other than
/// `b` is in the row of `b` only where it is in the row of every predecessor.
pub open spec fn follows(blocks: Seq<RegionBlock>, rows: Seq<Vec<bool>>, primary: int, b: int, d: int) -> bool {
    ||| d == b
    ||| b != primary && (exists|a: int| 0 <= a < blocks.len() && #[trigger] flows(blocks, a, b)) && (
    forall|a: int|
        0 <= a < blocks.len() && #[trigger] flows(blocks, a, b) ==> member(rows, a, d))
}

pub open spec fn shaped(rows: Seq<Vec<bool>>, count: int) -> bool {
    &&& rows.len() == count
    &&& forall|b: int| 0 <= b < count ==> (#[trigger] rows[b])@.len() == count
}

/// Every member of a row follows from the rows of the predecessors.
pub open spec fn consistent(blocks: Seq<RegionBlock>, rows: Seq<Vec<bool>>, primary: int) -> bool {
    &&& shaped(rows, blocks.len() as int)
    &&& forall|b: int, d: int|
        0 <= b < blocks.len() && 0 <= d < blocks.len() && #[trigger] member(rows, b, d) ==> follows(
            blocks,
            rows,
            primary,
            b,
            d,
        )
}

/// Every row of `small` is part of the row of `large`.
pub open spec fn within(small: Seq<Vec<bool>>, large: Seq<Vec<bool>>, count: int) -> bool {
    forall|b: int, d: int|
        0 <= b < count && 0 <= d < count && member(small, b, d) ==> #[trigger] member(large, b, d)
}

/// The dominators of each block: the largest rows that are consistent.
pub open spec fn are_dominators(blocks: Seq<RegionBlock>, rows: Seq<Vec<bool>>, primary: int) -> bool {
    &&& consistent(blocks, rows, primary)
    &&& forall|b: int| 0 <= b < blocks.len() ==> #[trigger] member(rows, b, b)
    &&& forall|other: Seq<Vec<bool>>| #[trigger]
        consistent(blocks, other, primary) ==> within(other, rows, blocks.len() as int)
}

/// Members of the first `count` places of a row.
spec fn row_weight(row: Seq<bool>, count: int) -> nat
    decreases count,
{
    if count <= 0 {
        0
    } else {
        row_weight(row, count - 1) + if row[count - 1] {
            1nat
        } else {
            0
        }
    }
}

spec fn weight(rows: Seq<Vec<bool>>, width: int, count: int) -> nat
    decreases count,
{
    if count <= 0 {
        0
    } else {
        weight(rows, width, count - 1) + row_weight(rows[count - 1]@, width)
    }
}

proof fn lemma_row_cleared(before: Seq<bool>, after: Seq<bool>, at: int, count: int)
    requires
        0 <= at < before.len(),
        before[at],
        after == before.update(at, false),
        0 <= count <= before.len(),
    ensures
        row_weight(after, count) + (if at < count {
            1int
        } else {
            0
        }) == row_weight(before, count),
    decreases count,
{
    if count > 0 {
        lemma_row_cleared(before, after, at, count - 1);
    }
}

proof fn lemma_weight_same(before: Seq<Vec<bool>>, after: Seq<Vec<bool>>, width: int, count: int)
    requires
        forall|k: int| 0 <= k < count ==> (#[trigger] after[k])@ == before[k]@,
    ensures
        weight(after, width, count) == weight(before, width, count),
    decreases count,
{
    if count > 0 {
        lemma_weight_same(before, after, width, count - 1);
        assert(after[count - 1]@ == before[count - 1]@);
    }
}

proof fn lemma_weight_cleared(
    before: Seq<Vec<bool>>,
    after: Seq<Vec<bool>>,
    width: int,
    b: int,
    d: int,
    count: int,
)
    requires
        0 <= b < count <= before.len(),
        after.len() == before.len(),
        0 <= d < width,
        before[b]@.len() == width,
        before[b]@[d],
        after[b]@ == before[b]@.update(d, false),
        forall|k: int| 0 <= k < count && k != b ==> (#[trigger] after[k])@ == before[k]@,
    ensures
        weight(after, width, count) < weight(before, width, count),
    decreases count,
{
    if b == count - 1 {
        lemma_weight_same(before, after, width, count - 1);
        lemma_row_cleared(before[b]@, after[b]@, d, width);
    } else {
        lemma_weight_cleared(before, after, width, b, d, count - 1);
        assert(after[count - 1]@ == before[count - 1]@);
    }
}

impl Region {
    /// Whether a member of a row follows from the rows of the predecessors.
    fn row_follows(
        &self,
        rows: &Vec<Vec<bool>>,
        predecessors: &Vec<usize>,
        primary: usize,
        b: usize,
        d: usize,
    ) -> (r: bool)
        requires
            shaped(rows@, self.blocks@.len() as int),
            b < self.blocks@.len(),
            d < self.blocks@.len(),
            self.predecessors_of(b as int, predecessors@),
        ensures
            r == follows(self.blocks@, rows@, primary as int, b as int, d as int),
    {
        if d == b {
            return true;
        }
        if b == primary || predecessors.len() == 0 {
            proof {
                if b != primary && exists|a: int|
                    0 <= a < self.blocks@.len() && #[trigger] flows(self.blocks@, a, b as int) {
                    let a = choose|a: int|
                        0 <= a < self.blocks@.len() && #[trigger] flows(self.blocks@, a, b as int);
                    assert(names_index(predecessors@, a));
                }
            }
            return false;
        }
        proof {
            let a = predecessors@[0] as int;
            assert(predecessors@[0] < self.blocks@.len());
            assert(names_index(predecessors@, a));
            assert(flows(self.blocks@, a, b as int));
        }
        let mut k: usize = 0;
        while k < predecessors.len()
            invariant
                k <= predecessors@.len(),
                shaped(rows@, self.blocks@.len() as int),
                b < self.blocks@.len(),
                d < self.blocks@.len(),
                d != b,
                b != primary,
                self.predecessors_of(b as int, predecessors@),
                exists|a: int|
                    0 <= a < self.blocks@.len() && #[trigger] flows(self.blocks@, a, b as int),
                forall|j: int|
                    0 <= j < k ==> member(rows@, #[trigger] predecessors@[j] as int, d as int),
            decreases predecessors@.len() - k,
        {
            let a: usize = predecessors[k];
            proof {
                assert(predecessors@[k as int] < self.blocks@.len());
                assert(names_index(predecessors@, a as int));
                assert(flows(self.blocks@, a as int, b as int));
                assert(rows@[a as int]@.len() == self.blocks@.len());
            }
            if !rows[a][d] {
                assert(!member(rows@, a as int, d as int));
                return false;
            }
            k = k + 1;
        }
        proof {
            assert forall|a: int|
                0 <= a < self.blocks@.len() && #[trigger] flows(
                    self.blocks@,
                    a,
                    b as int,
                ) implies member(rows@, a, d as int) by {
                assert(names_index(predecessors@, a));
                let j = choose|j: int| 0 <= j < predecessors@.len() && #[trigger] predecessors@[j]
                    == a;
                assert(member(rows@, predecessors@[j] as int, d as int));
            }
        }
        true
    }

    /// The dominators of each block.
    pub fn block_dominators(&self) -> (r: Vec<Vec<bool>>)
        requires
            self.wf(),
        ensures
            exists|primary: int|
                0 <= primary < self.blocks@.len() && self.blocks@[primary].start == self.start
                    && #[trigger] are_dominators(self.blocks@, r@, primary),
    {
        let count: usize = self.blocks.len();
        let primary: usize = self.primary();
        let predecessors = self.predecessors();
        let mut rows: Vec<Vec<bool>> = Vec::new();
        let mut filled: usize = 0;
        while filled < count
            invariant
                filled <= count,
                count == self.blocks@.len(),
                rows@.len() == filled,
                forall|b: int| 0 <= b < filled ==> (#[trigger] rows@[b])@.len() == count,
                forall|b: int, d: int|
                    0 <= b < filled && 0 <= d < count ==> #[trigger] member(rows@, b, d) == (b
                        != primary || d == primary),
            decreases count - filled,
        {
            let mut row: Vec<bool> = Vec::new();
            let mut d: usize = 0;
            while d < count
                invariant
                    d <= count,
                    row@.len() == d,
                    forall|j: int|
                        0 <= j < d ==> #[trigger] row@[j] == (filled != primary || j == primary),
                decreases count - d,
            {
                row.push(filled != primary || d == primary);
                d = d + 1;
            }
            let ghost before = rows@;
            rows.push(row);
            proof {
                assert forall|b: int, d: int| 0 <= b < filled + 1 && 0 <= d < count implies #[trigger] member(
                    rows@,
                    b,
                    d,
                ) == (b != primary || d == primary) by {
                    if b < filled {
                        assert(rows@[b] == before[b]);
                        assert(member(before, b, d) == (b != primary || d == primary));
                    }
                }
            }
            filled = filled + 1;
        }
        proof {
            assert forall|other: Seq<Vec<bool>>| #[trigger]
                consistent(self.blocks@, other, primary as int) implies within(
                other,
                rows@,
                count as int,
            ) by {
                assert forall|b: int, d: int|
                    0 <= b < count && 0 <= d < count && member(other, b, d) implies #[trigger] member(
                    rows@,
                    b,
                    d,
                ) by {
                    if b == primary {
                        assert(follows(self.blocks@, other, primary as int, b, d));
                    }
                }
            }
        }
        let mut changed = true;
        while changed
            invariant
                count == self.blocks@.len(),
                primary < count,
                self.blocks@[primary as int].start == self.start,
                self.wf(),
                predecessors@.len() == count,
                forall|b: int|
                    0 <= b < predecessors@.len() ==> self.predecessors_of(
                        b,
                        #[trigger] predecessors@[b]@,
                    ),
                shaped(rows@, count as int),
                forall|b: int| 0 <= b < count ==> #[trigger] member(rows@, b, b),
                forall|other: Seq<Vec<bool>>| #[trigger]
                    consistent(self.blocks@, other, primary as int) ==> within(
                        other,
                        rows@,
                        count as int,
                    ),
                !changed ==> consistent(self.blocks@, rows@, primary as int),
            decreases weight(rows@, count as int, count as int) + if changed {
                1nat
            } else {
                0
            },
        {
            changed = false;
            let ghost start = rows@;
            let mut b: usize = 0;
            while b < count
                invariant
                    b <= count,
                    count == self.blocks@.len(),
                    primary < count,
                    predecessors@.len() == count,
                    forall|b: int|
                        0 <= b < predecessors@.len() ==> self.predecessors_of(
                            b,
                            #[trigger] predecessors@[b]@,
                        ),
                    shaped(rows@, count as int),
                    forall|b: int| 0 <= b < count ==> #[trigger] member(rows@, b, b),
                    forall|other: Seq<Vec<bool>>| #[trigger]
                        consistent(self.blocks@, other, primary as int) ==> within(
                            other,
                            rows@,
                            count as int,
                        ),
                    !changed ==> rows@ == start,
                    changed ==> weight(rows@, count as int, count as int) < weight(
                        start,
                        count as int,
                        count as int,
                    ),
                    !changed ==> forall|x: int, d: int|
                        0 <= x < b && 0 <= d < count && #[trigger] member(rows@, x, d) ==> follows(
                            self.blocks@,
                            rows@,
                            primary as int,
                            x,
                            d,
                        ),
                decreases count - b,
            {
                assert(self.predecessors_of(b as int, predecessors@[b as int]@));
                let mut d: usize = 0;
                while d < count
                    invariant
                        b < count,
                        d <= count,
                        count == self.blocks@.len(),
                        primary < count,
                        predecessors@.len() == count,
                        self.predecessors_of(b as int, predecessors@[b as int]@),
                        forall|b: int|
                            0 <= b < predecessors@.len() ==> self.predecessors_of(
                                b,
                                #[trigger] predecessors@[b]@,
                            ),
                        shaped(rows@, count as int),
                        forall|b: int| 0 <= b < count ==> #[trigger] member(rows@, b, b),
                        forall|other: Seq<Vec<bool>>| #[trigger]
                            consistent(self.blocks@, other, primary as int) ==> within(
                                other,
                                rows@,
                                count as int,
                            ),
                        !changed ==> rows@ == start,
                        changed ==> weight(rows@, count as int, count as int) < weight(
                            start,
                            count as int,
                            count as int,
                        ),
                        !changed ==> forall|x: int, y: int|
                            0 <= x < b && 0 <= y < count && #[trigger] member(rows@, x, y) ==> follows(
                                self.blocks@,
                                rows@,
                                primary as int,
                                x,
                                y,
                            ),
                        !changed ==> forall|y: int|
                            0 <= y < d && #[trigger] member(rows@, b as int, y) ==> follows(
                                self.blocks@,
                                rows@,
                                primary as int,
                                b as int,
                                y,
                            ),
                    decreases count - d,
                {
                    assert(rows@[b as int]@.len() == count);
                    if rows[b][d] && !self.row_follows(&rows, &predecessors[b], primary, b, d) {
                        let ghost before = rows@;
                        rows[b].set(d, false);
                        proof {
                            assert(rows@[b as int]@ == before[b as int]@.update(d as int, false));
                            lemma_weight_cleared(
                                before,
                                rows@,
                                count as int,
                                b as int,
                                d as int,
                                count as int,
                            );
                            lemma_still_largest(
                                self.blocks@,
                                before,
                                rows@,
                                primary as int,
                                b as int,
                                d as int,
                            );
                            assert forall|x: int| 0 <= x < count implies #[trigger] member(
                                rows@,
                                x,
                                x,
                            ) by {
                                assert(member(before, x, x));
                            }
                        }
                        changed = true;
                    }
                    d = d + 1;
                }
                b = b + 1;
            }
        }
        proof {
            assert(are_dominators(self.blocks@, rows@, primary as int));
        }
        rows
    }
}

/// What does not follow is in no consistent rows, so that it may go.
proof fn lemma_still_largest(
    blocks: Seq<RegionBlock>,
    before: Seq<Vec<bool>>,
    after: Seq<Vec<bool>>,
    primary: int,
    b: int,
    d: int,
)
    requires
        shaped(before, blocks.len() as int),
        0 <= b < blocks.len(),
        0 <= d < blocks.len(),
        !follows(blocks, before, primary, b, d),
        after.len() == before.len(),
        after[b]@ == before[b]@.update(d, false),
        forall|k: int| 0 <= k < blocks.len() && k != b ==> (#[trigger] after[k])@ == before[k]@,
        forall|other: Seq<Vec<bool>>| #[trigger]
            consistent(blocks, other, primary) ==> within(other, before, blocks.len() as int),
    ensures
        forall|other: Seq<Vec<bool>>| #[trigger]
            consistent(blocks, other, primary) ==> within(other, after, blocks.len() as int),
{
    assert forall|other: Seq<Vec<bool>>| #[trigger] consistent(blocks, other, primary) implies within(
        other,
        after,
        blocks.len() as int,
    ) by {
        assert forall|x: int, y: int|
            0 <= x < blocks.len() && 0 <= y < blocks.len() && member(other, x, y) implies #[trigger] member(
            after,
            x,
            y,
        ) by {
            assert(within(other, before, blocks.len() as int));
            assert(member(before, x, y));
            if x == b && y == d {
                assert(follows(blocks, other, primary, b, d));
                assert forall|a: int|
                    0 <= a < blocks.len() && #[trigger] flows(blocks, a, b) implies member(
                    before,
                    a,
                    d,
                ) by {
                    assert(member(other, a, d));
                }
            } else if x == b {
                assert(after[b]@[y] == before[b]@[y]);
            }
        }
    }
}

/// A dominator of a block lies on every path from the region's first block to it.
pub proof fn law_dominators_lie_on_every_path(
    blocks: Seq<RegionBlock>,
    rows: Seq<Vec<bool>>,
    primary: int,
    path: Seq<int>,
    d: int,
)
    requires
        consistent(blocks, rows, primary),
        is_path(blocks, path),
        path[0] == primary,
        0 <= d < blocks.len(),
        member(rows, path.last(), d),
    ensures
        path.contains(d),
    decreases path.len(),
{
    let b = path.last();
    assert(0 <= path[path.len() - 1] < blocks.len());
    assert(follows(blocks, rows, primary, b, d));
    if d == b {
        assert(path[path.len() - 1] == d);
    } else {
        assert(b != primary);
        assert(path.len() > 1);
        let shorter = path.drop_last();
        assert(step_flows(blocks, path, path.len() - 2));
        let a = shorter.last();
        assert(flows(blocks, a, b));
        assert(0 <= path[path.len() - 2] < blocks.len());
        assert(member(rows, a, d));
        assert forall|k: int| 0 <= k < shorter.len() - 1 implies #[trigger] step_flows(
            blocks,
            shorter,
            k,
        ) by {
            assert(step_flows(blocks, path, k));
        }
        law_dominators_lie_on_every_path(blocks, rows, primary, shorter, d);
        let k = choose|k: int| 0 <= k < shorter.len() && shorter[k] == d;
        assert(path[k] == d);
    }
}

/// `c` is in the row of every block in the list.
pub open spec fn common(rows: Seq<Vec<bool>>, uses: Seq<usize>, c: int) -> bool {
    forall|k: int| 0 <= k < uses.len() ==> member(rows, #[trigger] uses[k] as int, c)
}

/// The number of members of a row.
pub open spec fn row_size(row: Seq<bool>) -> nat {
    row.filter(|bit: bool| bit).len()
}

fn size_of_row(row: &Vec<bool>) -> (r: usize)
    ensures
        r == row_size(row@),
{
    let mut count: usize = 0;
    let mut k: usize = 0;
    let ghost keep = |bit: bool| bit;
    proof {
        reveal(Seq::filter);
        assert(row@.take(0) =~= Seq::<bool>::empty());
    }
    while k < row.len()
        invariant
            k <= row@.len(),
            count <= k,
            keep == (|bit: bool| bit),
            count == row@.take(k as int).filter(keep).len(),
        decreases row@.len() - k,
    {
        proof {
            reveal(Seq::filter);
            assert(row@.take(k + 1).drop_last() =~= row@.take(k as int));
            assert(row@.take(k + 1).last() == row@[k as int]);
        }
        if row[k] {
            count = count + 1;
        }
        k = k + 1;
    }
    proof {
        assert(row@.take(row@.len() as int) =~= row@);
    }
    count
}

/// The closest block that dominates all of the uses: of their common dominators
/// the one with the most dominators itself.
pub fn common_dominator(uses: &Vec<usize>, dominators: &Vec<Vec<bool>>) -> (r: Option<usize>)
    requires
        shaped(dominators@, dominators@.len() as int),
        forall|k: int| 0 <= k < uses@.len() ==> #[trigger] uses@[k] < dominators@.len(),
    ensures
        match r {
            Some(c) => {
                &&& uses@.len() > 0
                &&& c < dominators@.len()
                &&& common(dominators@, uses@, c as int)
                &&& forall|other: int|
                    0 <= other < dominators@.len() && #[trigger] common(
                        dominators@,
                        uses@,
                        other,
                    ) ==> row_size(dominators@[other]@) <= row_size(dominators@[c as int]@)
            },
            None => uses@.len() == 0 || forall|other: int|
                0 <= other < dominators@.len() ==> !#[trigger] common(dominators@, uses@, other),
        },
{
    if uses.len() == 0 {
        return None;
    }
    let mut best: Option<usize> = None;
    let mut best_size: usize = 0;
    let mut c: usize = 0;
    while c < dominators.len()
        invariant
            c <= dominators@.len(),
            uses@.len() > 0,
            shaped(dominators@, dominators@.len() as int),
            forall|k: int| 0 <= k < uses@.len() ==> #[trigger] uses@[k] < dominators@.len(),
            match best {
                Some(b) => {
                    &&& b < c
                    &&& common(dominators@, uses@, b as int)
                    &&& best_size == row_size(dominators@[b as int]@)
                    &&& forall|other: int|
                        0 <= other < c && #[trigger] common(dominators@, uses@, other) ==> row_size(
                            dominators@[other]@,
                        ) <= best_size
                },
                None => forall|other: int|
                    0 <= other < c ==> !#[trigger] common(dominators@, uses@, other),
            },
        decreases dominators@.len() - c,
    {
        let mut shared = true;
        let mut k: usize = 0;
        while k < uses.len()
            invariant
                k <= uses@.len(),
                c < dominators@.len(),
                shaped(dominators@, dominators@.len() as int),
                forall|k: int| 0 <= k < uses@.len() ==> #[trigger] uses@[k] < dominators@.len(),
                shared == forall|j: int|
                    0 <= j < k ==> member(dominators@, #[trigger] uses@[j] as int, c as int),
            decreases uses@.len() - k,
        {
            assert(uses@[k as int] < dominators@.len());
            assert(dominators@[uses@[k as int] as int]@.len() == dominators@.len());
            if !dominators[uses[k]][c] {
                assert(!member(dominators@, uses@[k as int] as int, c as int));
                shared = false;
            }
            k = k + 1;
        }
        assert(shared == common(dominators@, uses@, c as int));
        if shared {
            let size: usize = size_of_row(&dominators[c]);
            if best.is_none() || size >= best_size {
                best = Some(c);
                best_size = size;
            }
        }
        c = c + 1;
    }
    best
}

} // verus!
