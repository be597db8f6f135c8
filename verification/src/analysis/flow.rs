//! Backward liveness over a graph of blocks.

use vstd::prelude::*;
use super::{BlockLiveness, FlowBlock, StateItem, StateSet};

verus! {

/// Whether `item` is used on some path of at most `steps` blocks that starts with
/// block `index`, before any block of the path writes it. External edges use what
/// `exit_live` holds.
pub open spec fn used_within(
    blocks: Seq<FlowBlock>,
    index: int,
    item: StateItem,
    steps: nat,
) -> bool
    decreases steps, 0int,
{
    steps > 0 && (blocks[index].effects.live_in@.contains(item) || (
    !blocks[index].effects.writes@.contains(item) && used_after(
        blocks,
        index,
        item,
        (steps - 1) as nat,
    )))
}

/// Whether `item` is used beyond block `index` within `steps` blocks.
pub open spec fn used_after(
    blocks: Seq<FlowBlock>,
    index: int,
    item: StateItem,
    steps: nat,
) -> bool
    decreases steps, 1int,
{
    blocks[index].exit_live@.contains(item) || exists|edge: int|
        #![trigger blocks[index].successors@[edge]]
        0 <= edge < blocks[index].successors@.len() && used_within(
            blocks,
            blocks[index].successors@[edge] as int,
            item,
            steps,
        )
}

/// Every successor is a block of the graph.
pub open spec fn edges_in_range(blocks: Seq<FlowBlock>) -> bool {
    forall|index: int, edge: int|
        0 <= index < blocks.len() && 0 <= edge < blocks[index].successors@.len()
            ==> #[trigger] blocks[index].successors@[edge] < blocks.len()
}

/// Live out of `index` over its first `edges` successors, given `solution`.
pub open spec fn out_over(
    blocks: Seq<FlowBlock>,
    solution: Seq<BlockLiveness>,
    index: int,
    edges: int,
) -> Set<StateItem> {
    Set::new(
        |item: StateItem|
            blocks[index].exit_live@.contains(item) || exists|edge: int|
                #![trigger blocks[index].successors@[edge]]
                0 <= edge < edges && solution[blocks[index].successors@[edge] as int].live_in@.contains(
                    item,
                ),
    )
}

/// The equation of one block.
pub open spec fn block_settled(
    blocks: Seq<FlowBlock>,
    solution: Seq<BlockLiveness>,
    index: int,
) -> bool {
    &&& solution[index].live_out@ == out_over(
        blocks,
        solution,
        index,
        blocks[index].successors@.len() as int,
    )
    &&& solution[index].live_in@ == blocks[index].effects.live_before_set(solution[index].live_out@)
}

/// The equations of every block.
pub open spec fn is_solution(blocks: Seq<FlowBlock>, solution: Seq<BlockLiveness>) -> bool {
    solution.len() == blocks.len() && forall|index: int|
        0 <= index < blocks.len() ==> #[trigger] block_settled(blocks, solution, index)
}

spec fn below_next(blocks: Seq<FlowBlock>, solution: Seq<BlockLiveness>, index: int) -> bool {
    let out = out_over(blocks, solution, index, blocks[index].successors@.len() as int);
    &&& solution[index].live_out@.subset_of(out)
    &&& solution[index].live_in@.subset_of(blocks[index].effects.live_before_set(out))
}

spec fn justified(blocks: Seq<FlowBlock>, solution: Seq<BlockLiveness>, index: int) -> bool {
    &&& forall|item: StateItem| #[trigger]
        solution[index].live_in@.contains(item) ==> exists|steps: nat|
            used_within(blocks, index, item, steps)
    &&& forall|item: StateItem| #[trigger]
        solution[index].live_out@.contains(item) ==> exists|steps: nat|
            used_after(blocks, index, item, steps)
}

pub open spec fn item_at(position: int) -> StateItem {
    if position < 31 {
        StateItem::X(position as u8)
    } else if position == 31 {
        StateItem::Sp
    } else if position < 64 {
        StateItem::Vector((position - 32) as u8)
    } else if position < 72 {
        StateItem::Flag((position - 64) as u8)
    } else if position == 72 {
        StateItem::Fpcr
    } else if position == 73 {
        StateItem::Fpsr
    } else if position == 74 {
        StateItem::TpidrEl0
    } else {
        StateItem::TpidrroEl0
    }
}

pub open spec fn position_of(item: StateItem) -> int {
    match item {
        StateItem::X(index) => index as int,
        StateItem::Sp => 31,
        StateItem::Vector(index) => index + 32,
        StateItem::Flag(bit) => bit + 64,
        StateItem::Fpcr => 72,
        StateItem::Fpsr => 73,
        StateItem::TpidrEl0 => 74,
        StateItem::TpidrroEl0 => 75,
    }
}

pub open spec fn weight(state: StateSet, positions: nat) -> nat
    decreases positions,
{
    if positions == 0 {
        0
    } else {
        weight(state, (positions - 1) as nat) + if state@.contains(item_at(positions - 1)) {
            1nat
        } else {
            0nat
        }
    }
}

pub proof fn lemma_weight_bound(state: StateSet, positions: nat)
    ensures
        weight(state, positions) <= positions,
    decreases positions,
{
    if positions > 0 {
        lemma_weight_bound(state, (positions - 1) as nat);
    }
}

pub proof fn lemma_weight_grows(a: StateSet, b: StateSet, positions: nat)
    requires
        a@.subset_of(b@),
    ensures
        weight(a, positions) <= weight(b, positions),
        forall|p: int|
            0 <= p < positions && b@.contains(#[trigger] item_at(p)) && !a@.contains(item_at(p))
                ==> weight(a, positions) < weight(b, positions),
    decreases positions,
{
    if positions > 0 {
        lemma_weight_grows(a, b, (positions - 1) as nat);
        assert(a@.contains(item_at(positions - 1)) ==> b@.contains(item_at(positions - 1)));
    }
}

pub proof fn lemma_weight_strict(a: StateSet, b: StateSet)
    requires
        a@.subset_of(b@),
        a != b,
    ensures
        weight(a, 76) < weight(b, 76),
{
    super::lemma_same_members(a, b);
    assert(exists|item: StateItem| a@.contains(item) != b@.contains(item)) by {
        assert(!(a@ =~= b@));
    }
    let item = choose|item: StateItem| a@.contains(item) != b@.contains(item);
    assert(b@.contains(item));
    let p = position_of(item);
    assert(0 <= p < 76 && item_at(p) == item);
    lemma_weight_grows(a, b, 76);
}

spec fn total(solution: Seq<BlockLiveness>, count: nat) -> nat
    decreases count,
{
    if count == 0 {
        0
    } else {
        total(solution, (count - 1) as nat) + weight(solution[count - 1].live_in, 76) + weight(
            solution[count - 1].live_out,
            76,
        )
    }
}

proof fn lemma_total_bound(solution: Seq<BlockLiveness>, count: nat)
    ensures
        total(solution, count) <= 152 * count,
    decreases count,
{
    if count > 0 {
        lemma_total_bound(solution, (count - 1) as nat);
        lemma_weight_bound(solution[count - 1].live_in, 76);
        lemma_weight_bound(solution[count - 1].live_out, 76);
    }
}

proof fn lemma_total_update(
    solution: Seq<BlockLiveness>,
    index: int,
    value: BlockLiveness,
    count: nat,
)
    requires
        0 <= index < solution.len(),
        count <= solution.len(),
    ensures
        total(solution.update(index, value), count) == total(solution, count) + if index < count {
            weight(value.live_in, 76) + weight(value.live_out, 76) - weight(
                solution[index].live_in,
                76,
            ) - weight(solution[index].live_out, 76)
        } else {
            0
        },
    decreases count,
{
    if count > 0 {
        lemma_total_update(solution, index, value, (count - 1) as nat);
    }
}

proof fn lemma_out_monotone(
    blocks: Seq<FlowBlock>,
    a: Seq<BlockLiveness>,
    b: Seq<BlockLiveness>,
    index: int,
)
    requires
        edges_in_range(blocks),
        0 <= index < blocks.len(),
        a.len() == blocks.len(),
        b.len() == blocks.len(),
        forall|i: int| 0 <= i < a.len() ==> (#[trigger] a[i]).live_in@.subset_of(b[i].live_in@),
    ensures
        out_over(blocks, a, index, blocks[index].successors@.len() as int).subset_of(
            out_over(blocks, b, index, blocks[index].successors@.len() as int),
        ),
{
    let edges = blocks[index].successors@.len() as int;
    let (oa, ob) = (out_over(blocks, a, index, edges), out_over(blocks, b, index, edges));
    assert forall|item: StateItem| oa.contains(item) implies ob.contains(item) by {
        if !blocks[index].exit_live@.contains(item) {
            let edge = choose|edge: int|
                #![trigger blocks[index].successors@[edge]]
                0 <= edge < edges && a[blocks[index].successors@[edge] as int].live_in@.contains(
                    item,
                );
            let target = blocks[index].successors@[edge] as int;
            assert(a[target].live_in@.subset_of(b[target].live_in@));
            assert(b[blocks[index].successors@[edge] as int].live_in@.contains(item));
        }
    }
}

/// What a solution leaves live includes every item that is used on some path.
proof fn lemma_solution_complete(
    blocks: Seq<FlowBlock>,
    solution: Seq<BlockLiveness>,
    index: int,
    item: StateItem,
    steps: nat,
)
    requires
        edges_in_range(blocks),
        is_solution(blocks, solution),
        0 <= index < blocks.len(),
        used_within(blocks, index, item, steps),
    ensures
        solution[index].live_in@.contains(item),
    decreases steps,
{
    assert(block_settled(blocks, solution, index));
    if !blocks[index].effects.live_in@.contains(item) {
        lemma_solution_complete_after(blocks, solution, index, item, (steps - 1) as nat);
    }
}

proof fn lemma_solution_complete_after(
    blocks: Seq<FlowBlock>,
    solution: Seq<BlockLiveness>,
    index: int,
    item: StateItem,
    steps: nat,
)
    requires
        edges_in_range(blocks),
        is_solution(blocks, solution),
        0 <= index < blocks.len(),
        used_after(blocks, index, item, steps),
    ensures
        solution[index].live_out@.contains(item),
    decreases steps, 1int,
{
    assert(block_settled(blocks, solution, index));
    if !blocks[index].exit_live@.contains(item) {
        let edge = choose|edge: int|
            #![trigger blocks[index].successors@[edge]]
            0 <= edge < blocks[index].successors@.len() && used_within(
                blocks,
                blocks[index].successors@[edge] as int,
                item,
                steps,
            );
        let target = blocks[index].successors@[edge] as int;
        assert(block_settled(blocks, solution, target));
        if !blocks[target].effects.live_in@.contains(item) {
            lemma_solution_complete_after(blocks, solution, target, item, (steps - 1) as nat);
        }
        assert(solution[blocks[index].successors@[edge] as int].live_in@.contains(item));
    }
}

/// One update keeps the solution below the next iterate and justified.
proof fn lemma_step(
    blocks: Seq<FlowBlock>,
    before: Seq<BlockLiveness>,
    index: int,
    next: BlockLiveness,
)
    requires
        edges_in_range(blocks),
        before.len() == blocks.len(),
        0 <= index < blocks.len(),
        forall|i: int| 0 <= i < blocks.len() ==> #[trigger] below_next(blocks, before, i),
        forall|i: int| 0 <= i < blocks.len() ==> #[trigger] justified(blocks, before, i),
        next.live_out@ == out_over(blocks, before, index, blocks[index].successors@.len() as int),
        next.live_in@ == blocks[index].effects.live_before_set(next.live_out@),
    ensures
        before[index].live_in@.subset_of(next.live_in@),
        before[index].live_out@.subset_of(next.live_out@),
        forall|i: int|
            0 <= i < blocks.len() ==> #[trigger] below_next(
                blocks,
                before.update(index, next),
                i,
            ),
        forall|i: int|
            0 <= i < blocks.len() ==> #[trigger] justified(blocks, before.update(index, next), i),
        total(before, blocks.len()) <= total(before.update(index, next), blocks.len()),
        next != before[index] ==> total(before, blocks.len()) < total(
            before.update(index, next),
            blocks.len(),
        ),
{
    let after = before.update(index, next);
    assert(below_next(blocks, before, index));
    assert forall|i: int| 0 <= i < before.len() implies (#[trigger] before[i]).live_in@.subset_of(
        after[i].live_in@,
    ) by {}
    assert forall|i: int| 0 <= i < blocks.len() implies #[trigger] below_next(blocks, after, i) by {
        assert(below_next(blocks, before, i));
        lemma_out_monotone(blocks, before, after, i);
    }
    assert forall|i: int| 0 <= i < blocks.len() implies #[trigger] justified(blocks, after, i) by {
        assert(justified(blocks, before, i));
        if i == index {
            lemma_next_justified(blocks, before, index, next);
        }
    }
    lemma_total_update(before, index, next, blocks.len());
    lemma_weight_grows(before[index].live_in, next.live_in, 76);
    lemma_weight_grows(before[index].live_out, next.live_out, 76);
    if next != before[index] {
        if before[index].live_in != next.live_in {
            lemma_weight_strict(before[index].live_in, next.live_in);
        } else {
            lemma_weight_strict(before[index].live_out, next.live_out);
        }
    }
}

proof fn lemma_next_justified(
    blocks: Seq<FlowBlock>,
    before: Seq<BlockLiveness>,
    index: int,
    next: BlockLiveness,
)
    requires
        edges_in_range(blocks),
        before.len() == blocks.len(),
        0 <= index < blocks.len(),
        forall|i: int| 0 <= i < blocks.len() ==> #[trigger] justified(blocks, before, i),
        next.live_out@ == out_over(blocks, before, index, blocks[index].successors@.len() as int),
        next.live_in@ == blocks[index].effects.live_before_set(next.live_out@),
    ensures
        forall|item: StateItem| #[trigger]
            next.live_in@.contains(item) ==> exists|steps: nat|
                used_within(blocks, index, item, steps),
        forall|item: StateItem| #[trigger]
            next.live_out@.contains(item) ==> exists|steps: nat|
                used_after(blocks, index, item, steps),
{
    let edges = blocks[index].successors@.len() as int;
    assert forall|item: StateItem| #[trigger] next.live_out@.contains(item) implies exists|
        steps: nat,
    | used_after(blocks, index, item, steps) by {
        if blocks[index].exit_live@.contains(item) {
            assert(used_after(blocks, index, item, 0));
        } else {
            let edge = choose|edge: int|
                #![trigger blocks[index].successors@[edge]]
                0 <= edge < edges
                    && before[blocks[index].successors@[edge] as int].live_in@.contains(item);
            let target = blocks[index].successors@[edge] as int;
            assert(justified(blocks, before, target));
            let steps = choose|steps: nat| used_within(blocks, target, item, steps);
            assert(used_within(blocks, blocks[index].successors@[edge] as int, item, steps));
            assert(used_after(blocks, index, item, steps));
        }
    }
    assert forall|item: StateItem| #[trigger] next.live_in@.contains(item) implies exists|
        steps: nat,
    | used_within(blocks, index, item, steps) by {
        if blocks[index].effects.live_in@.contains(item) {
            assert(used_within(blocks, index, item, 1));
        } else {
            assert(next.live_out@.contains(item));
            let steps = choose|steps: nat| used_after(blocks, index, item, steps);
            assert(used_within(blocks, index, item, (steps + 1) as nat));
        }
    }
}

fn next_liveness(blocks: &[FlowBlock<'_>], solution: &Vec<BlockLiveness>, index: usize) -> (next:
    BlockLiveness)
    requires
        edges_in_range(blocks@),
        solution@.len() == blocks@.len(),
        index < blocks@.len(),
    ensures
        next.live_out@ == out_over(
            blocks@,
            solution@,
            index as int,
            blocks@[index as int].successors@.len() as int,
        ),
        next.live_in@ == blocks@[index as int].effects.live_before_set(next.live_out@),
{
    let block = &blocks[index];
    let mut live_out = block.exit_live;
    let mut edge: usize = 0;
    proof {
        assert(live_out@ =~= out_over(blocks@, solution@, index as int, 0));
    }
    while edge < block.successors.len()
        invariant
            edges_in_range(blocks@),
            solution@.len() == blocks@.len(),
            index < blocks@.len(),
            block == blocks@[index as int],
            edge <= block.successors@.len(),
            live_out@ == out_over(blocks@, solution@, index as int, edge as int),
        decreases block.successors@.len() - edge,
    {
        let successor: usize = block.successors[edge];
        assert(blocks@[index as int].successors@[edge as int] < blocks@.len());
        let ghost before = live_out@;
        live_out = live_out.union(solution[successor].live_in);
        proof {
            let after = out_over(blocks@, solution@, index as int, edge + 1);
            assert forall|item: StateItem| live_out@.contains(item) == after.contains(item) by {
                if solution@[successor as int].live_in@.contains(item) {
                    let e = edge as int;
                    assert(solution@[blocks@[index as int].successors@[e] as int].live_in@.contains(
                        item,
                    ));
                }
            }
            assert(live_out@ =~= after);
        }
        edge = edge + 1;
    }
    BlockLiveness { live_in: block.effects.live_before(live_out), live_out }
}

/// The least solution of the liveness equations: an item is live into a block
/// exactly when some path from the block uses it before writing it.
pub fn liveness(blocks: &[FlowBlock<'_>]) -> (result: Vec<BlockLiveness>)
    requires
        edges_in_range(blocks@),
    ensures
        is_solution(blocks@, result@),
        forall|index: int, item: StateItem|
            0 <= index < blocks@.len() ==> (#[trigger] result@[index].live_in@.contains(item)
                <==> exists|steps: nat| used_within(blocks@, index, item, steps)),
        forall|index: int, item: StateItem|
            0 <= index < blocks@.len() ==> (#[trigger] result@[index].live_out@.contains(item)
                <==> exists|steps: nat| used_after(blocks@, index, item, steps)),
{
    let mut result: Vec<BlockLiveness> = Vec::new();
    let mut filled: usize = 0;
    while filled < blocks.len()
        invariant
            filled <= blocks@.len(),
            result@.len() == filled,
            forall|i: int| 0 <= i < filled ==> (#[trigger] result@[i]).live_in@ == Set::<StateItem>::empty(),
            forall|i: int| 0 <= i < filled ==> (#[trigger] result@[i]).live_out@ == Set::<StateItem>::empty(),
        decreases blocks@.len() - filled,
    {
        result.push(BlockLiveness { live_in: StateSet::default(), live_out: StateSet::default() });
        filled = filled + 1;
    }
    proof {
        assert forall|i: int| 0 <= i < blocks@.len() implies #[trigger] below_next(blocks@, result@, i) by {
            assert(result@[i].live_in@ == Set::<StateItem>::empty());
        }
        assert forall|i: int| 0 <= i < blocks@.len() implies #[trigger] justified(blocks@, result@, i) by {
            assert(result@[i].live_in@ == Set::<StateItem>::empty());
        }
    }
    loop
        invariant
            edges_in_range(blocks@),
            result@.len() == blocks@.len(),
            forall|i: int| 0 <= i < blocks@.len() ==> #[trigger] below_next(blocks@, result@, i),
            forall|i: int| 0 <= i < blocks@.len() ==> #[trigger] justified(blocks@, result@, i),
        decreases 152 * blocks@.len() - total(result@, blocks@.len()),
    {
        let ghost start = result@;
        let mut changed = false;
        let mut remaining: usize = blocks.len();
        while remaining > 0
            invariant
                edges_in_range(blocks@),
                result@.len() == blocks@.len(),
                remaining <= blocks@.len(),
                forall|i: int| 0 <= i < blocks@.len() ==> #[trigger] below_next(blocks@, result@, i),
                forall|i: int| 0 <= i < blocks@.len() ==> #[trigger] justified(blocks@, result@, i),
                total(start, blocks@.len()) <= total(result@, blocks@.len()),
                changed ==> total(start, blocks@.len()) < total(result@, blocks@.len()),
                !changed ==> result@ == start && forall|i: int|
                    remaining <= i < blocks@.len() ==> #[trigger] block_settled(blocks@, result@, i),
            decreases remaining,
        {
            let index: usize = remaining - 1;
            let next = next_liveness(blocks, &result, index);
            let ghost before = result@;
            if !(next.live_in == result[index].live_in && next.live_out == result[index].live_out) {
                changed = true;
            }
            result.set(index, next);
            proof {
                lemma_step(blocks@, before, index as int, next);
                assert(result@ =~= before.update(index as int, next));
                if !changed {
                    assert(next == before[index as int]);
                    assert(result@ =~= before);
                    assert(block_settled(blocks@, result@, index as int));
                }
            }
            remaining = index;
        }
        proof {
            lemma_total_bound(result@, blocks@.len());
        }
        if !changed {
            proof {
                assert forall|index: int, item: StateItem| 0 <= index < blocks@.len() implies (
                #[trigger] result@[index].live_in@.contains(item) <==> exists|steps: nat|
                    used_within(blocks@, index, item, steps)) by {
                    assert(justified(blocks@, result@, index));
                    if exists|steps: nat| used_within(blocks@, index, item, steps) {
                        let steps = choose|steps: nat| used_within(blocks@, index, item, steps);
                        lemma_solution_complete(blocks@, result@, index, item, steps);
                    }
                }
                assert forall|index: int, item: StateItem| 0 <= index < blocks@.len() implies (
                #[trigger] result@[index].live_out@.contains(item) <==> exists|steps: nat|
                    used_after(blocks@, index, item, steps)) by {
                    assert(justified(blocks@, result@, index));
                    if exists|steps: nat| used_after(blocks@, index, item, steps) {
                        let steps = choose|steps: nat| used_after(blocks@, index, item, steps);
                        lemma_solution_complete_after(blocks@, result@, index, item, steps);
                    }
                }
            }
            return result;
        }
    }
}

} // verus!
