//! Which registers a block may find, or always finds, changed since the region
//! was entered.

use vstd::prelude::*;
use super::dominance::{is_path, step_flows};
use super::region::{flows, names_index, Region, RegionBlock};
use crate::abi::HostAbi;
use crate::analysis::access::block_writes;
use crate::analysis::flow::{lemma_weight_bound, lemma_weight_strict, weight};
use crate::analysis::{StateItem, StateSet};

verus! {

/// The registers that are kept in native values and written back on exit.
pub open spec fn register_file() -> Set<StateItem> {
    Set::new(
        |item: StateItem|
            match item {
                StateItem::X(index) => index < 31,
                StateItem::Sp => true,
                StateItem::Vector(index) => index < 32,
                StateItem::Fpsr => true,
                _ => false,
            },
    )
}

/// The registers of a set.
pub fn registers_of(set: StateSet) -> (r: StateSet)
    ensures
        r@ == set@.intersect(register_file()),
{
    let r = StateSet {
        integer: set.integer,
        vector: set.vector,
        nzcv: 0,
        fpcr: false,
        fpsr: set.fpsr,
        tpidr_el0: false,
        tpidrro_el0: false,
    };
    proof {
        assert forall|bit: u8| bit < 8 implies !crate::analysis::flag_bit(0, bit) by {
            assert(bit < 8 ==> !((0u8 >> bit) & 1 == 1)) by (bit_vector);
        }
        assert(r@ =~= set@.intersect(register_file()));
    }
    r
}

/// Every register.
pub fn all_registers() -> (r: StateSet)
    ensures
        r@ == register_file(),
{
    let r = registers_of(StateSet::all());
    proof {
        assert(r@ =~= register_file());
    }
    r
}

/// Some path of at most `steps` edges that ends in block `b` writes the register
/// before it gets there.
pub open spec fn dirtied(
    blocks: Seq<RegionBlock>,
    writes: Seq<StateSet>,
    b: int,
    item: StateItem,
    steps: nat,
) -> bool
    decreases steps,
{
    steps > 0 && exists|a: int|
        0 <= a < blocks.len() && #[trigger] flows(blocks, a, b) && (writes[a]@.contains(item)
            || dirtied(blocks, writes, a, item, (steps - 1) as nat))
}

/// The register may be changed on entry to block `b`.
pub open spec fn may_be_dirty(
    blocks: Seq<RegionBlock>,
    writes: Seq<StateSet>,
    b: int,
    item: StateItem,
) -> bool {
    exists|steps: nat| #[trigger] dirtied(blocks, writes, b, item, steps)
}

spec fn total(states: Seq<StateSet>, count: nat) -> nat
    decreases count,
{
    if count == 0 {
        0
    } else {
        total(states, (count - 1) as nat) + weight(states[count - 1], 76)
    }
}

proof fn lemma_total_bound(states: Seq<StateSet>, count: nat)
    ensures
        total(states, count) <= 76 * count,
    decreases count,
{
    if count > 0 {
        lemma_total_bound(states, (count - 1) as nat);
        lemma_weight_bound(states[count - 1], 76);
    }
}

proof fn lemma_total_update(states: Seq<StateSet>, index: int, value: StateSet, count: nat)
    requires
        0 <= index < states.len(),
        count <= states.len(),
    ensures
        total(states.update(index, value), count) == total(states, count) + if index < count {
            weight(value, 76) - weight(states[index], 76)
        } else {
            0
        },
    decreases count,
{
    if count > 0 {
        lemma_total_update(states, index, value, (count - 1) as nat);
    }
}

/// What the predecessors in the list leave changed.
pub open spec fn leaves(states: Seq<StateSet>, writes: Seq<StateSet>, a: int, item: StateItem) -> bool {
    states[a]@.contains(item) || writes[a]@.contains(item)
}

impl Region {
    /// The registers that each block writes.
    pub fn block_dirty_states(&self, host: HostAbi) -> (r: Vec<StateSet>)
        requires
            self.wf(),
        ensures
            self.are_writes(host, r@),
    {
        let effects = self.effects(host);
        let mut r: Vec<StateSet> = Vec::new();
        let mut k: usize = 0;
        while k < effects.len()
            invariant
                k <= effects@.len(),
                effects@.len() == self.blocks@.len(),
                r@.len() == k,
                forall|j: int|
                    0 <= j < effects@.len() ==> (#[trigger] effects@[j]).writes@ == block_writes(
                        self.blocks@[j].instructions@,
                        host,
                    ),
                forall|j: int|
                    0 <= j < k ==> (#[trigger] r@[j])@ == block_writes(
                        self.blocks@[j].instructions@,
                        host,
                    ).intersect(register_file()),
            decreases effects@.len() - k,
        {
            r.push(registers_of(effects[k].writes));
            k = k + 1;
        }
        r
    }

    pub open spec fn are_writes(&self, host: HostAbi, writes: Seq<StateSet>) -> bool {
        &&& writes.len() == self.blocks@.len()
        &&& forall|k: int|
            0 <= k < writes.len() ==> (#[trigger] writes[k])@ == block_writes(
                self.blocks@[k].instructions@,
                host,
            ).intersect(register_file())
    }

    /// The registers that may be changed on entry to each block.
    pub fn dirty_states_at_entry(&self, host: HostAbi) -> (r: Vec<StateSet>)
        requires
            self.wf(),
        ensures
            r@.len() == self.blocks@.len(),
            exists|writes: Seq<StateSet>| #[trigger]
                self.are_writes(host, writes) && forall|b: int, item: StateItem|
                    0 <= b < r@.len() ==> (#[trigger] r@[b]@.contains(item) <==> may_be_dirty(
                        self.blocks@,
                        writes,
                        b,
                        item,
                    )),
    {
        let writes = self.block_dirty_states(host);
        let r = self.dirty_from(&writes);
        assert(self.are_writes(host, writes@));
        r
    }

    pub fn dirty_from(&self, writes: &Vec<StateSet>) -> (r: Vec<StateSet>)
        requires
            self.wf(),
            writes@.len() == self.blocks@.len(),
        ensures
            r@.len() == self.blocks@.len(),
            forall|b: int, item: StateItem|
                0 <= b < r@.len() ==> (#[trigger] r@[b]@.contains(item) <==> may_be_dirty(
                    self.blocks@,
                    writes@,
                    b,
                    item,
                )),
    {
        let count: usize = self.blocks.len();
        let predecessors = self.predecessors();
        let mut states: Vec<StateSet> = Vec::new();
        let mut filled: usize = 0;
        while filled < count
            invariant
                filled <= count,
                states@.len() == filled,
                forall|b: int|
                    0 <= b < filled ==> (#[trigger] states@[b])@ == Set::<StateItem>::empty(),
            decreases count - filled,
        {
            states.push(StateSet::default());
            filled = filled + 1;
        }
        let mut changed = true;
        while changed
            invariant
                count == self.blocks@.len(),
                writes@.len() == count,
                states@.len() == count,
                predecessors@.len() == count,
                forall|b: int|
                    0 <= b < predecessors@.len() ==> self.predecessors_of(
                        b,
                        #[trigger] predecessors@[b]@,
                    ),
                forall|b: int, item: StateItem|
                    0 <= b < count && #[trigger] states@[b]@.contains(item) ==> may_be_dirty(
                        self.blocks@,
                        writes@,
                        b,
                        item,
                    ),
                !changed ==> settled(self.blocks@, states@, writes@, count as int),
            decreases 76 * count - total(states@, count as nat) + if changed {
                1int
            } else {
                0
            },
        {
            proof {
                lemma_total_bound(states@, count as nat);
            }
            changed = false;
            let ghost start = states@;
            let mut b: usize = 0;
            while b < count
                invariant
                    b <= count,
                    count == self.blocks@.len(),
                    writes@.len() == count,
                    states@.len() == count,
                    predecessors@.len() == count,
                    forall|b: int|
                        0 <= b < predecessors@.len() ==> self.predecessors_of(
                            b,
                            #[trigger] predecessors@[b]@,
                        ),
                    forall|x: int, item: StateItem|
                        0 <= x < count && #[trigger] states@[x]@.contains(item) ==> may_be_dirty(
                            self.blocks@,
                            writes@,
                            x,
                            item,
                        ),
                    !changed ==> states@ == start,
                    changed ==> total(states@, count as nat) > total(start, count as nat),
                    total(states@, count as nat) >= total(start, count as nat),
                    !changed ==> settled(self.blocks@, states@, writes@, b as int),
                decreases count - b,
            {
                assert(self.predecessors_of(b as int, predecessors@[b as int]@));
                let ghost list = predecessors@[b as int]@;
                let mut next = states[b];
                let mut k: usize = 0;
                while k < predecessors[b].len()
                    invariant
                        b < count,
                        count == self.blocks@.len(),
                        writes@.len() == count,
                        states@.len() == count,
                        predecessors@.len() == count,
                        list == predecessors@[b as int]@,
                        self.predecessors_of(b as int, list),
                        k <= list.len(),
                        forall|item: StateItem| #[trigger]
                            next@.contains(item) <==> states@[b as int]@.contains(item) || exists|j:
                                int|
                                0 <= j < k && leaves(
                                    states@,
                                    writes@,
                                    #[trigger] list[j] as int,
                                    item,
                                ),
                    decreases list.len() - k,
                {
                    let a: usize = predecessors[b][k];
                    assert(list[k as int] < self.blocks@.len());
                    let ghost before = next@;
                    let left = states[a].union(writes[a]);
                    next = next.union(left);
                    proof {
                        assert forall|item: StateItem| #[trigger]
                            next@.contains(item) <==> states@[b as int]@.contains(item) || exists|j:
                                int|
                                0 <= j < k + 1 && leaves(
                                    states@,
                                    writes@,
                                    #[trigger] list[j] as int,
                                    item,
                                ) by {
                            if left@.contains(item) {
                                assert(leaves(states@, writes@, list[k as int] as int, item));
                            }
                            if before.contains(item) && !states@[b as int]@.contains(item) {
                                let j = choose|j: int|
                                    0 <= j < k && leaves(
                                        states@,
                                        writes@,
                                        #[trigger] list[j] as int,
                                        item,
                                    );
                                assert(leaves(states@, writes@, list[j] as int, item));
                            }
                        }
                    }
                    k = k + 1;
                }
                proof {
                    assert forall|item: StateItem| #[trigger]
                        next@.contains(item) implies may_be_dirty(
                        self.blocks@,
                        writes@,
                        b as int,
                        item,
                    ) by {
                        if !states@[b as int]@.contains(item) {
                            let j = choose|j: int|
                                0 <= j < list.len() && leaves(
                                    states@,
                                    writes@,
                                    #[trigger] list[j] as int,
                                    item,
                                );
                            let a = list[j] as int;
                            assert(list[j] < self.blocks@.len());
                            assert(names_index(list, a));
                            lemma_dirty_step(self.blocks@, states@, writes@, a, b as int, item);
                        }
                    }
                    assert(states@[b as int]@.subset_of(next@));
                }
                if next != states[b] {
                    let ghost before = states@;
                    proof {
                        lemma_weight_strict(states@[b as int], next);
                        lemma_total_update(states@, b as int, next, count as nat);
                    }
                    states.set(b, next);
                    proof {
                        assert(states@ =~= before.update(b as int, next));
                    }
                    changed = true;
                } else {
                    proof {
                        if !changed {
                            assert forall|a: int, x: int, item: StateItem|
                                0 <= a < self.blocks@.len() && 0 <= x < b + 1 && #[trigger] flows(
                                    self.blocks@,
                                    a,
                                    x,
                                ) && #[trigger] leaves(states@, writes@, a, item) implies states@[
                                x
                            ]@.contains(item) by {
                                if x == b {
                                    assert(names_index(list, a));
                                    let j = choose|j: int|
                                        0 <= j < list.len() && #[trigger] list[j] == a;
                                    assert(leaves(states@, writes@, list[j] as int, item));
                                    assert(next@.contains(item));
                                }
                            }
                        }
                    }
                }
                b = b + 1;
            }
            proof {
                lemma_total_bound(states@, count as nat);
            }
        }
        proof {
            assert forall|b: int, item: StateItem|
                0 <= b < states@.len() implies (#[trigger] states@[b]@.contains(item)
                <==> may_be_dirty(self.blocks@, writes@, b, item)) by {
                if may_be_dirty(self.blocks@, writes@, b, item) {
                    let steps = choose|steps: nat| #[trigger]
                        dirtied(self.blocks@, writes@, b, item, steps);
                    lemma_settled_complete(self.blocks@, states@, writes@, b, item, steps);
                }
            }
        }
        states
    }
}

/// Nothing that a predecessor of one of the first `count` blocks leaves is missing.
spec fn settled(
    blocks: Seq<RegionBlock>,
    states: Seq<StateSet>,
    writes: Seq<StateSet>,
    count: int,
) -> bool {
    forall|a: int, x: int, item: StateItem|
        0 <= a < blocks.len() && 0 <= x < count && #[trigger] flows(blocks, a, x)
            && #[trigger] leaves(states, writes, a, item) ==> states[x]@.contains(item)
}

proof fn lemma_dirty_step(
    blocks: Seq<RegionBlock>,
    states: Seq<StateSet>,
    writes: Seq<StateSet>,
    a: int,
    b: int,
    item: StateItem,
)
    requires
        0 <= a < blocks.len(),
        flows(blocks, a, b),
        leaves(states, writes, a, item),
        states[a]@.contains(item) ==> may_be_dirty(blocks, writes, a, item),
    ensures
        may_be_dirty(blocks, writes, b, item),
{
    if writes[a]@.contains(item) {
        assert(dirtied(blocks, writes, b, item, 1));
    } else {
        let steps = choose|steps: nat| #[trigger] dirtied(blocks, writes, a, item, steps);
        assert(dirtied(blocks, writes, b, item, steps + 1));
    }
}

proof fn lemma_settled_complete(
    blocks: Seq<RegionBlock>,
    states: Seq<StateSet>,
    writes: Seq<StateSet>,
    b: int,
    item: StateItem,
    steps: nat,
)
    requires
        settled(blocks, states, writes, blocks.len() as int),
        0 <= b < blocks.len(),
        dirtied(blocks, writes, b, item, steps),
    ensures
        states[b]@.contains(item),
    decreases steps,
{
    let a = choose|a: int|
        0 <= a < blocks.len() && #[trigger] flows(blocks, a, b) && (writes[a]@.contains(item)
            || dirtied(blocks, writes, a, item, (steps - 1) as nat));
    if !writes[a]@.contains(item) {
        lemma_settled_complete(blocks, states, writes, a, item, (steps - 1) as nat);
    }
    assert(leaves(states, writes, a, item));
}

/// The register is changed on entry to `b` as far as the predecessors say.
pub open spec fn must_follow(
    blocks: Seq<RegionBlock>,
    states: Seq<StateSet>,
    writes: Seq<StateSet>,
    primary: int,
    b: int,
    item: StateItem,
) -> bool {
    &&& b != primary
    &&& exists|a: int| 0 <= a < blocks.len() && #[trigger] flows(blocks, a, b)
    &&& forall|a: int|
        0 <= a < blocks.len() && #[trigger] flows(blocks, a, b) ==> leaves(states, writes, a, item)
}

/// States that claim no more than the predecessors bear out.
pub open spec fn borne_out(
    blocks: Seq<RegionBlock>,
    states: Seq<StateSet>,
    writes: Seq<StateSet>,
    primary: int,
) -> bool {
    &&& states.len() == blocks.len()
    &&& forall|b: int, item: StateItem|
        0 <= b < blocks.len() && #[trigger] states[b]@.contains(item) ==> register_file().contains(
            item,
        ) && must_follow(blocks, states, writes, primary, b, item)
}

/// The largest states that are borne out.
pub open spec fn always_dirty(
    blocks: Seq<RegionBlock>,
    states: Seq<StateSet>,
    writes: Seq<StateSet>,
    primary: int,
) -> bool {
    &&& borne_out(blocks, states, writes, primary)
    &&& forall|other: Seq<StateSet>| #[trigger]
        borne_out(blocks, other, writes, primary) ==> forall|b: int|
            0 <= b < blocks.len() ==> (#[trigger] other[b])@.subset_of(states[b]@)
}

/// A register that is always changed on entry to a block is written before on
/// every path from the region's first block.
pub proof fn law_always_dirty_is_written(
    blocks: Seq<RegionBlock>,
    states: Seq<StateSet>,
    writes: Seq<StateSet>,
    primary: int,
    path: Seq<int>,
    item: StateItem,
)
    requires
        borne_out(blocks, states, writes, primary),
        is_path(blocks, path),
        path[0] == primary,
        states[path.last()]@.contains(item),
    ensures
        exists|k: int| 0 <= k < path.len() - 1 && writes[#[trigger] path[k]]@.contains(item),
    decreases path.len(),
{
    let b = path.last();
    assert(0 <= path[path.len() - 1] < blocks.len());
    assert(must_follow(blocks, states, writes, primary, b, item));
    assert(path.len() > 1);
    let shorter = path.drop_last();
    assert(step_flows(blocks, path, path.len() - 2));
    let a = shorter.last();
    assert(0 <= path[path.len() - 2] < blocks.len());
    assert(flows(blocks, a, b));
    assert(leaves(states, writes, a, item));
    if writes[a]@.contains(item) {
        assert(writes[path[path.len() - 2]]@.contains(item));
    } else {
        assert forall|k: int| 0 <= k < shorter.len() - 1 implies #[trigger] step_flows(
            blocks,
            shorter,
            k,
        ) by {
            assert(step_flows(blocks, path, k));
        }
        law_always_dirty_is_written(blocks, states, writes, primary, shorter, item);
        let k = choose|k: int|
            0 <= k < shorter.len() - 1 && writes[#[trigger] shorter[k]]@.contains(item);
        assert(path[k] == shorter[k]);
    }
}

impl Region {
    /// The registers that are always changed on entry to each block.
    pub fn must_dirty_from(&self, writes: &Vec<StateSet>, primary: usize) -> (r: Vec<StateSet>)
        requires
            self.wf(),
            writes@.len() == self.blocks@.len(),
            primary < self.blocks@.len(),
        ensures
            always_dirty(self.blocks@, r@, writes@, primary as int),
    {
        let count: usize = self.blocks.len();
        let predecessors = self.predecessors();
        let mut states: Vec<StateSet> = Vec::new();
        let mut filled: usize = 0;
        while filled < count
            invariant
                filled <= count,
                states@.len() == filled,
                forall|b: int|
                    0 <= b < filled ==> (#[trigger] states@[b])@ == if b == primary {
                        Set::<StateItem>::empty()
                    } else {
                        register_file()
                    },
            decreases count - filled,
        {
            states.push(
                if filled == primary {
                    StateSet::default()
                } else {
                    all_registers()
                },
            );
            filled = filled + 1;
        }
        proof {
            assert forall|other: Seq<StateSet>| #[trigger]
                borne_out(self.blocks@, other, writes@, primary as int) implies forall|b: int|
                0 <= b < self.blocks@.len() ==> (#[trigger] other[b])@.subset_of(states@[b]@) by {
                assert forall|b: int| 0 <= b < self.blocks@.len() implies (
                #[trigger] other[b])@.subset_of(states@[b]@) by {
                    assert forall|item: StateItem| other[b]@.contains(item) implies states@[
                        b
                    ]@.contains(item) by {
                        assert(must_follow(
                            self.blocks@,
                            other,
                            writes@,
                            primary as int,
                            b,
                            item,
                        ));
                    }
                }
            }
        }
        let mut changed = true;
        while changed
            invariant
                count == self.blocks@.len(),
                primary < count,
                writes@.len() == count,
                states@.len() == count,
                predecessors@.len() == count,
                forall|b: int|
                    0 <= b < predecessors@.len() ==> self.predecessors_of(
                        b,
                        #[trigger] predecessors@[b]@,
                    ),
                forall|b: int| 0 <= b < count ==> (#[trigger] states@[b])@.subset_of(register_file()),
                states@[primary as int]@ == Set::<StateItem>::empty(),
                forall|other: Seq<StateSet>| #[trigger]
                    borne_out(self.blocks@, other, writes@, primary as int) ==> forall|b: int|
                        0 <= b < self.blocks@.len() ==> (#[trigger] other[b])@.subset_of(
                            states@[b]@,
                        ),
                !changed ==> borne_out(self.blocks@, states@, writes@, primary as int),
            decreases total(states@, count as nat) + if changed {
                1nat
            } else {
                0
            },
        {
            changed = false;
            let ghost start = states@;
            let mut b: usize = 0;
            while b < count
                invariant
                    b <= count,
                    count == self.blocks@.len(),
                    primary < count,
                    writes@.len() == count,
                    states@.len() == count,
                    predecessors@.len() == count,
                    forall|b: int|
                        0 <= b < predecessors@.len() ==> self.predecessors_of(
                            b,
                            #[trigger] predecessors@[b]@,
                        ),
                    forall|b: int|
                        0 <= b < count ==> (#[trigger] states@[b])@.subset_of(register_file()),
                    states@[primary as int]@ == Set::<StateItem>::empty(),
                    forall|other: Seq<StateSet>| #[trigger]
                        borne_out(self.blocks@, other, writes@, primary as int) ==> forall|b: int|
                            0 <= b < self.blocks@.len() ==> (#[trigger] other[b])@.subset_of(
                                states@[b]@,
                            ),
                    !changed ==> states@ == start,
                    changed ==> total(states@, count as nat) < total(start, count as nat),
                    total(states@, count as nat) <= total(start, count as nat),
                    !changed ==> forall|x: int, item: StateItem|
                        0 <= x < b && #[trigger] states@[x]@.contains(item) ==> must_follow(
                            self.blocks@,
                            states@,
                            writes@,
                            primary as int,
                            x,
                            item,
                        ),
                decreases count - b,
            {
                assert(self.predecessors_of(b as int, predecessors@[b as int]@));
                let ghost list = predecessors@[b as int]@;
                let mut next = states[b];
                if predecessors[b].len() == 0 {
                    next = StateSet::default();
                }
                let mut k: usize = 0;
                while k < predecessors[b].len()
                    invariant
                        b < count,
                        count == self.blocks@.len(),
                        writes@.len() == count,
                        states@.len() == count,
                        predecessors@.len() == count,
                        list == predecessors@[b as int]@,
                        self.predecessors_of(b as int, list),
                        k <= list.len(),
                        states@[b as int]@.subset_of(register_file()),
                        list.len() == 0 ==> next@ == Set::<StateItem>::empty(),
                        list.len() > 0 ==> forall|item: StateItem| #[trigger]
                            next@.contains(item) <==> states@[b as int]@.contains(item) && forall|j:
                                int|
                                0 <= j < k ==> leaves(
                                    states@,
                                    writes@,
                                    #[trigger] list[j] as int,
                                    item,
                                ),
                    decreases list.len() - k,
                {
                    let a: usize = predecessors[b][k];
                    assert(list[k as int] < self.blocks@.len());
                    let ghost before = next@;
                    let left = states[a].union(writes[a]);
                    next = next.intersection(left);
                    proof {
                        assert forall|item: StateItem| #[trigger]
                            next@.contains(item) <==> states@[b as int]@.contains(item) && forall|j:
                                int|
                                0 <= j < k + 1 ==> leaves(
                                    states@,
                                    writes@,
                                    #[trigger] list[j] as int,
                                    item,
                                ) by {
                            if next@.contains(item) {
                                assert(before.contains(item));
                                assert(register_file().contains(item));
                                assert(StateSet::everything().contains(item));
                                assert(left@.contains(item));
                                assert(leaves(states@, writes@, list[k as int] as int, item));
                            }
                            if states@[b as int]@.contains(item) && forall|j: int|
                                0 <= j < k + 1 ==> leaves(
                                    states@,
                                    writes@,
                                    #[trigger] list[j] as int,
                                    item,
                                ) {
                                assert(leaves(states@, writes@, list[k as int] as int, item));
                                assert(before.contains(item));
                            }
                        }
                    }
                    k = k + 1;
                }
                proof {
                    lemma_must_row(
                        *self,
                        states@,
                        writes@,
                        primary as int,
                        b as int,
                        list,
                        next,
                    );
                }
                if next != states[b] {
                    let ghost before = states@;
                    proof {
                        lemma_weight_strict(next, states@[b as int]);
                        lemma_total_update(states@, b as int, next, count as nat);
                    }
                    states.set(b, next);
                    proof {
                        assert(states@ =~= before.update(b as int, next));
                        assert forall|other: Seq<StateSet>| #[trigger]
                            borne_out(
                                self.blocks@,
                                other,
                                writes@,
                                primary as int,
                            ) implies forall|x: int|
                            0 <= x < self.blocks@.len() ==> (#[trigger] other[x])@.subset_of(
                                states@[x]@,
                            ) by {
                            assert forall|x: int| 0 <= x < self.blocks@.len() implies (
                            #[trigger] other[x])@.subset_of(states@[x]@) by {
                                assert(other[x]@.subset_of(before[x]@));
                                if x == b {
                                    lemma_must_kept(
                                        self.blocks@,
                                        before,
                                        other,
                                        writes@,
                                        primary as int,
                                        b as int,
                                        next,
                                    );
                                }
                            }
                        }
                    }
                    changed = true;
                }
                b = b + 1;
            }
        }
        states
    }

    /// Registers that are changed on entry to some block on one path and not on
    /// another. `may` holds what may be changed on entry to each block.
    pub fn conditionally_dirty_at_entry(
        &self,
        writes: &Vec<StateSet>,
        may: &Vec<StateSet>,
        primary: usize,
    ) -> (r: StateSet)
        requires
            self.wf(),
            writes@.len() == self.blocks@.len(),
            may@.len() == self.blocks@.len(),
            primary < self.blocks@.len(),
        ensures
            exists|must: Seq<StateSet>| #[trigger]
                always_dirty(self.blocks@, must, writes@, primary as int) && forall|item: StateItem|
                    #[trigger]
                    r@.contains(item) <==> exists|b: int|
                        0 <= b < may@.len() && (#[trigger] may@[b])@.contains(item)
                            && !must[b]@.contains(item),
    {
        let must = self.must_dirty_from(writes, primary);
        let mut r = StateSet::default();
        let mut b: usize = 0;
        while b < may.len()
            invariant
                b <= may@.len(),
                may@.len() == self.blocks@.len(),
                must@.len() == self.blocks@.len(),
                forall|item: StateItem| #[trigger]
                    r@.contains(item) <==> exists|x: int|
                        0 <= x < b && (#[trigger] may@[x])@.contains(item) && !must@[x]@.contains(
                            item,
                        ),
            decreases may@.len() - b,
        {
            let ghost before = r@;
            let partial = may[b].without(must[b]);
            r = r.union(partial);
            proof {
                assert forall|item: StateItem| #[trigger]
                    r@.contains(item) <==> exists|x: int|
                        0 <= x < b + 1 && (#[trigger] may@[x])@.contains(item)
                            && !must@[x]@.contains(item) by {
                    if before.contains(item) {
                        let x = choose|x: int|
                            0 <= x < b && (#[trigger] may@[x])@.contains(item)
                                && !must@[x]@.contains(item);
                        assert(may@[x]@.contains(item));
                    }
                    if partial@.contains(item) {
                        assert(may@[b as int]@.contains(item));
                    }
                }
            }
            b = b + 1;
        }
        proof {
            assert(always_dirty(self.blocks@, must@, writes@, primary as int));
        }
        r
    }
}

proof fn lemma_must_row(
    region: Region,
    states: Seq<StateSet>,
    writes: Seq<StateSet>,
    primary: int,
    b: int,
    list: Seq<usize>,
    next: StateSet,
)
    requires
        0 <= b < region.blocks@.len(),
        region.predecessors_of(b, list),
        b == primary ==> states[b]@ == Set::<StateItem>::empty(),
        list.len() == 0 ==> next@ == Set::<StateItem>::empty(),
        list.len() > 0 ==> forall|item: StateItem| #[trigger]
            next@.contains(item) <==> states[b]@.contains(item) && forall|j: int|
                0 <= j < list.len() ==> leaves(states, writes, #[trigger] list[j] as int, item),
    ensures
        next@.subset_of(states[b]@),
        forall|item: StateItem| #[trigger]
            next@.contains(item) <==> states[b]@.contains(item) && must_follow(
                region.blocks@,
                states,
                writes,
                primary,
                b,
                item,
            ),
{
    assert forall|item: StateItem| #[trigger]
        next@.contains(item) <==> states[b]@.contains(item) && must_follow(
            region.blocks@,
            states,
            writes,
            primary,
            b,
            item,
        ) by {
        if next@.contains(item) {
            assert(list.len() > 0);
            let a = list[0] as int;
            assert(list[0] < region.blocks@.len());
            assert(names_index(list, a));
            assert(flows(region.blocks@, a, b));
            assert forall|p: int|
                0 <= p < region.blocks@.len() && #[trigger] flows(
                    region.blocks@,
                    p,
                    b,
                ) implies leaves(states, writes, p, item) by {
                assert(names_index(list, p));
                let j = choose|j: int| 0 <= j < list.len() && #[trigger] list[j] == p;
                assert(leaves(states, writes, list[j] as int, item));
            }
        }
        if states[b]@.contains(item) && must_follow(
            region.blocks@,
            states,
            writes,
            primary,
            b,
            item,
        ) {
            let a = choose|a: int|
                0 <= a < region.blocks@.len() && #[trigger] flows(region.blocks@, a, b);
            assert(names_index(list, a));
            assert(list.len() > 0);
            assert forall|j: int| 0 <= j < list.len() implies leaves(
                states,
                writes,
                #[trigger] list[j] as int,
                item,
            ) by {
                assert(list[j] < region.blocks@.len());
                assert(names_index(list, list[j] as int));
                assert(flows(region.blocks@, list[j] as int, b));
            }
        }
    }
}

proof fn lemma_must_kept(
    blocks: Seq<RegionBlock>,
    states: Seq<StateSet>,
    other: Seq<StateSet>,
    writes: Seq<StateSet>,
    primary: int,
    b: int,
    next: StateSet,
)
    requires
        0 <= b < blocks.len(),
        borne_out(blocks, other, writes, primary),
        forall|x: int| 0 <= x < blocks.len() ==> (#[trigger] other[x])@.subset_of(states[x]@),
        forall|item: StateItem| #[trigger]
            next@.contains(item) <==> states[b]@.contains(item) && must_follow(
                blocks,
                states,
                writes,
                primary,
                b,
                item,
            ),
    ensures
        other[b]@.subset_of(next@),
{
    assert forall|item: StateItem| other[b]@.contains(item) implies next@.contains(item) by {
        assert(must_follow(blocks, other, writes, primary, b, item));
        assert forall|a: int|
            0 <= a < blocks.len() && #[trigger] flows(blocks, a, b) implies leaves(
            states,
            writes,
            a,
            item,
        ) by {
            assert(leaves(other, writes, a, item));
            assert(other[a]@.subset_of(states[a]@));
        }
    }
}

/// A block on the way, before its end, writes the register.
pub open spec fn written_on(writes: Seq<StateSet>, path: Seq<int>, item: StateItem) -> bool {
    exists|k: int| 0 <= k < path.len() - 1 && writes[#[trigger] path[k]]@.contains(item)
}

/// A register may be changed on entry to a block exactly where some way that ends there goes
/// through a block that writes it.
pub proof fn law_dirty_registers_are_written_on_a_way(
    blocks: Seq<RegionBlock>,
    writes: Seq<StateSet>,
    b: int,
    item: StateItem,
)
    requires
        0 <= b < blocks.len(),
    ensures
        may_be_dirty(blocks, writes, b, item) <==> exists|path: Seq<int>| #[trigger]
            is_path(blocks, path) && path.last() == b && written_on(writes, path, item),
{
    if may_be_dirty(blocks, writes, b, item) {
        let steps = choose|steps: nat| #[trigger] dirtied(blocks, writes, b, item, steps);
        let path = lemma_way(blocks, writes, b, item, steps);
        assert(is_path(blocks, path) && path.last() == b && written_on(writes, path, item));
    }
    if exists|path: Seq<int>| #[trigger]
        is_path(blocks, path) && path.last() == b && written_on(writes, path, item) {
        let path = choose|path: Seq<int>| #[trigger]
            is_path(blocks, path) && path.last() == b && written_on(writes, path, item);
        lemma_written_way(blocks, writes, path, item);
    }
}

proof fn lemma_way(
    blocks: Seq<RegionBlock>,
    writes: Seq<StateSet>,
    b: int,
    item: StateItem,
    steps: nat,
) -> (path: Seq<int>)
    requires
        0 <= b < blocks.len(),
        dirtied(blocks, writes, b, item, steps),
    ensures
        is_path(blocks, path),
        path.last() == b,
        written_on(writes, path, item),
    decreases steps,
{
    let a = choose|a: int|
        0 <= a < blocks.len() && #[trigger] flows(blocks, a, b) && (writes[a]@.contains(item)
            || dirtied(blocks, writes, a, item, (steps - 1) as nat));
    if writes[a]@.contains(item) {
        let path = seq![a, b];
        assert(writes[path[0]]@.contains(item));
        assert(step_flows(blocks, path, 0));
        path
    } else {
        let before = lemma_way(blocks, writes, a, item, (steps - 1) as nat);
        let path = before.push(b);
        let k = choose|k: int|
            0 <= k < before.len() - 1 && writes[#[trigger] before[k]]@.contains(item);
        assert(path[k] == before[k]);
        assert forall|j: int| 0 <= j < path.len() - 1 implies #[trigger] step_flows(
            blocks,
            path,
            j,
        ) by {
            if j < before.len() - 1 {
                assert(step_flows(blocks, before, j));
                assert(path[j] == before[j] && path[j + 1] == before[j + 1]);
            } else {
                assert(path[j] == before.last() && path[j + 1] == b);
            }
        }
        assert forall|j: int| 0 <= j < path.len() implies 0 <= #[trigger] path[j] < blocks.len() by {
            if j < before.len() {
                assert(path[j] == before[j]);
            }
        }
        path
    }
}

proof fn lemma_written_way(
    blocks: Seq<RegionBlock>,
    writes: Seq<StateSet>,
    path: Seq<int>,
    item: StateItem,
)
    requires
        is_path(blocks, path),
        written_on(writes, path, item),
    ensures
        may_be_dirty(blocks, writes, path.last(), item),
    decreases path.len(),
{
    let k = choose|k: int| 0 <= k < path.len() - 1 && writes[#[trigger] path[k]]@.contains(item);
    let before = path.drop_last();
    let a = path[path.len() - 2];
    assert(step_flows(blocks, path, path.len() - 2));
    assert(0 <= a < blocks.len());
    if k == path.len() - 2 {
        assert(flows(blocks, a, path.last()));
        assert(dirtied(blocks, writes, path.last(), item, 1));
    } else {
        assert forall|j: int| 0 <= j < before.len() - 1 implies #[trigger] step_flows(
            blocks,
            before,
            j,
        ) by {
            assert(step_flows(blocks, path, j));
        }
        assert forall|j: int| 0 <= j < before.len() implies 0 <= #[trigger] before[j]
            < blocks.len() by {
            assert(before[j] == path[j]);
        }
        assert(before[k] == path[k]);
        lemma_written_way(blocks, writes, before, item);
        assert(before.last() == a);
        let steps = choose|steps: nat| #[trigger] dirtied(blocks, writes, a, item, steps);
        assert(dirtied(blocks, writes, path.last(), item, (steps + 1) as nat)) by {
            assert(flows(blocks, a, path.last()));
        }
    }
}

} // verus!
