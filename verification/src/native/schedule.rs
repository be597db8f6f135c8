//! Ordering of parallel copies.

use vstd::prelude::*;
use super::store::{lemma_narrow_read, lemma_read_len, lemma_run_push, lemma_write};
use super::store::{scratch_of, sized, Store, ValueCopy};
use crate::abi::location::{allocatable, locations_overlap};
use crate::abi::{HostAbi, RegisterClass, ValueLocation, TRANSFER_BYTES};

verus! {

/// The slot of the transfer area that receives materialized flags. Temporaries
/// stay below it.
pub const FLAG_RESULT: u32 = 2032;

/// What a copy may read: a constant, a register that holds guest values, or the
/// frame above the temporaries.
pub open spec fn valid_source(abi: HostAbi, location: ValueLocation, bytes: u8) -> bool {
    &&& sized(location, bytes)
    &&& match location {
        ValueLocation::Register { class: RegisterClass::Integer, index } => allocatable(abi, index)
            && bytes <= 8,
        ValueLocation::Spill { offset, .. } => offset >= FLAG_RESULT && offset + bytes <= u32::MAX,
        _ => true,
    }
}

/// What a copy may write.
pub open spec fn valid_destination(abi: HostAbi, location: ValueLocation, bytes: u8) -> bool {
    &&& sized(location, bytes)
    &&& match location {
        ValueLocation::Register { class: RegisterClass::Integer, index } => allocatable(abi, index)
            && bytes <= 8,
        ValueLocation::Register { .. } => true,
        ValueLocation::Spill { offset, .. } => offset >= TRANSFER_BYTES && offset + bytes
            <= u32::MAX,
        ValueLocation::Constant(_) => false,
    }
}

/// Moves that happen at once: each destination is written once.
pub open spec fn valid_moves(abi: HostAbi, moves: Seq<ValueCopy>) -> bool {
    &&& forall|m: int|
        0 <= m < moves.len() ==> valid_source(
            abi,
            (#[trigger] moves[m]).source,
            moves[m].bytes,
        ) && valid_destination(abi, moves[m].destination, moves[m].bytes)
    &&& forall|m: int, n: int|
        0 <= m < moves.len() && 0 <= n < moves.len() && m != n
            ==> !(#[trigger] moves[m]).destination.overlaps((#[trigger] moves[n]).destination)
}

/// A location that no move writes and that transfers do not use themselves.
pub open spec fn untouched(
    abi: HostAbi,
    moves: Seq<ValueCopy>,
    location: ValueLocation,
    bytes: u8,
) -> bool {
    &&& sized(location, bytes)
    &&& location != scratch_of(abi)
    &&& location matches ValueLocation::Spill { offset, .. } ==> offset >= FLAG_RESULT
    &&& forall|m: int|
        0 <= m < moves.len() ==> !(#[trigger] moves[m]).destination.overlaps(location)
}

/// The copies, run in order, do what the moves do at once: every destination
/// gets the value that its source had before, and nothing else changes but the
/// scratch register and the transfer area.
pub open spec fn performs(
    abi: HostAbi,
    copies: Seq<ValueCopy>,
    moves: Seq<ValueCopy>,
    store: Store,
) -> bool {
    let after = store.run(copies);
    &&& forall|m: int|
        0 <= m < moves.len() ==> after.read(
            (#[trigger] moves[m]).destination,
            moves[m].bytes,
        ) == store.read(moves[m].source, moves[m].bytes)
    &&& forall|location: ValueLocation, bytes: u8| #[trigger]
        untouched(abi, moves, location, bytes) ==> after.read(location, bytes) == store.read(
            location,
            bytes,
        )
}

/// A temporary below `end`.
spec fn is_temporary(location: ValueLocation, bytes: u8, end: int) -> bool {
    location matches ValueLocation::Spill { offset, bytes: extent } && extent == bytes && offset
        + bytes <= end && bytes <= 16
}

/// What holds of the pending copies whatever the store: `origin[k]` is the move
/// that pending copy `k` completes.
spec fn pending_ok(
    abi: HostAbi,
    moves: Seq<ValueCopy>,
    pending: Seq<ValueCopy>,
    origin: Seq<int>,
    end: int,
) -> bool {
    &&& pending.len() == origin.len()
    &&& forall|k: int| 0 <= k < origin.len() ==> 0 <= #[trigger] origin[k] < moves.len()
    &&& forall|j: int, k: int|
        0 <= j < origin.len() && 0 <= k < origin.len() && j != k ==> #[trigger] origin[j]
            != #[trigger] origin[k]
    &&& forall|k: int|
        0 <= k < pending.len() ==> (#[trigger] pending[k]).destination == moves[origin[k]].destination
            && pending[k].bytes == moves[origin[k]].bytes
    &&& forall|k: int|
        0 <= k < pending.len() ==> valid_source(
            abi,
            (#[trigger] pending[k]).source,
            pending[k].bytes,
        ) || is_temporary(pending[k].source, pending[k].bytes, end)
}

/// What holds of one store: pending sources still have their values, completed
/// destinations have theirs.
spec fn progress(
    abi: HostAbi,
    moves: Seq<ValueCopy>,
    copies: Seq<ValueCopy>,
    pending: Seq<ValueCopy>,
    origin: Seq<int>,
    store: Store,
) -> bool {
    let now = store.run(copies);
    &&& now.wf()
    &&& forall|k: int|
        0 <= k < pending.len() ==> now.read(
            (#[trigger] pending[k]).source,
            pending[k].bytes,
        ) == store.read(moves[origin[k]].source, moves[origin[k]].bytes)
    &&& forall|m: int|
        0 <= m < moves.len() && !origin.contains(m) ==> now.read(
            (#[trigger] moves[m]).destination,
            moves[m].bytes,
        ) == store.read(moves[m].source, moves[m].bytes)
    &&& forall|location: ValueLocation, bytes: u8| #[trigger]
        untouched(abi, moves, location, bytes) ==> now.read(location, bytes) == store.read(
            location,
            bytes,
        )
}

/// Writing the destination of pending copy `at` destroys no pending source.
spec fn is_ready(pending: Seq<ValueCopy>, at: int) -> bool {
    forall|k: int|
        0 <= k < pending.len() ==> !pending[at].destination.overlaps((#[trigger] pending[k]).source)
}

fn find_ready(pending: &Vec<ValueCopy>) -> (r: Option<usize>)
    ensures
        match r {
            Some(at) => {
                &&& at < pending@.len()
                &&& is_ready(pending@, at as int)
                &&& forall|k: int| 0 <= k < at ==> !#[trigger] is_ready(pending@, k)
            },
            None => forall|k: int| 0 <= k < pending@.len() ==> !#[trigger] is_ready(pending@, k),
        },
{
    let mut at: usize = 0;
    while at < pending.len()
        invariant
            at <= pending@.len(),
            forall|k: int| 0 <= k < at ==> !#[trigger] is_ready(pending@, k),
        decreases pending@.len() - at,
    {
        let mut ready = true;
        let mut k: usize = 0;
        while k < pending.len()
            invariant
                at < pending@.len(),
                k <= pending@.len(),
                ready == (forall|j: int|
                    0 <= j < k ==> !pending@[at as int].destination.overlaps(
                        (#[trigger] pending@[j]).source,
                    )),
            decreases pending@.len() - k,
        {
            if locations_overlap(pending[at].destination, pending[k].source) {
                ready = false;
            }
            k = k + 1;
        }
        if ready {
            return Some(at);
        }
        at = at + 1;
    }
    None
}

/// The effect of one copy on everything apart from its destination.
proof fn lemma_copy(now: Store, copy: ValueCopy, other: ValueLocation, bytes: u8)
    requires
        now.wf(),
        sized(copy.destination, copy.bytes),
        copy.bytes <= 16,
        !(copy.destination is Constant),
        sized(other, bytes),
    ensures
        now.copy(copy).wf(),
        now.copy(copy).read(copy.destination, copy.bytes) == now.read(copy.source, copy.bytes),
        !copy.destination.overlaps(other) ==> now.copy(copy).read(other, bytes) == now.read(
            other,
            bytes,
        ),
{
    lemma_read_len(now, copy.source, copy.bytes);
    lemma_write(now, copy.destination, now.read(copy.source, copy.bytes), other, bytes);
}

/// Completing a ready copy keeps the invariant.
proof fn lemma_ready_step(
    abi: HostAbi,
    moves: Seq<ValueCopy>,
    copies: Seq<ValueCopy>,
    pending: Seq<ValueCopy>,
    origin: Seq<int>,
    end: int,
    at: int,
    store: Store,
)
    requires
        valid_moves(abi, moves),
        pending_ok(abi, moves, pending, origin, end),
        progress(abi, moves, copies, pending, origin, store),
        0 <= at < pending.len(),
        is_ready(pending, at),
    ensures
        progress(
            abi,
            moves,
            copies.push(pending[at]),
            pending.remove(at),
            origin.remove(at),
            store,
        ),
{
    let copy = pending[at];
    let now = store.run(copies);
    let after = store.run(copies.push(copy));
    let rest = pending.remove(at);
    let rest_origin = origin.remove(at);
    lemma_run_push(store, copies, copy);
    assert(valid_destination(abi, moves[origin[at]].destination, moves[origin[at]].bytes));
    lemma_copy(now, copy, ValueLocation::Constant(0), 0);
    assert forall|k: int| 0 <= k < rest.len() implies after.read(
        (#[trigger] rest[k]).source,
        rest[k].bytes,
    ) == store.read(moves[rest_origin[k]].source, moves[rest_origin[k]].bytes) by {
        let j = if k < at {
            k
        } else {
            k + 1
        };
        assert(rest[k] == pending[j] && rest_origin[k] == origin[j]);
        assert(!copy.destination.overlaps(pending[j].source));
        assert(sized(pending[j].source, pending[j].bytes));
        lemma_copy(now, copy, pending[j].source, pending[j].bytes);
    }
    assert forall|m: int| 0 <= m < moves.len() && !rest_origin.contains(m) implies after.read(
        (#[trigger] moves[m]).destination,
        moves[m].bytes,
    ) == store.read(moves[m].source, moves[m].bytes) by {
        if m == origin[at] {
        } else {
            assert(!origin.contains(m)) by {
                if origin.contains(m) {
                    let j = choose|j: int| 0 <= j < origin.len() && origin[j] == m;
                    let k = if j < at {
                        j
                    } else {
                        j - 1
                    };
                    assert(rest_origin[k] == m);
                }
            }
            assert(!moves[origin[at]].destination.overlaps(moves[m].destination));
            assert(valid_destination(abi, moves[m].destination, moves[m].bytes));
            lemma_copy(now, copy, moves[m].destination, moves[m].bytes);
        }
    }
    assert forall|location: ValueLocation, bytes: u8| #[trigger]
        untouched(abi, moves, location, bytes) implies after.read(location, bytes) == store.read(
        location,
        bytes,
    ) by {
        assert(!moves[origin[at]].destination.overlaps(location));
        lemma_copy(now, copy, location, bytes);
    }
}

proof fn lemma_remove_ok(
    abi: HostAbi,
    moves: Seq<ValueCopy>,
    pending: Seq<ValueCopy>,
    origin: Seq<int>,
    end: int,
    at: int,
)
    requires
        pending_ok(abi, moves, pending, origin, end),
        0 <= at < pending.len(),
    ensures
        pending_ok(abi, moves, pending.remove(at), origin.remove(at), end),
{
    let rest = pending.remove(at);
    let rest_origin = origin.remove(at);
    assert forall|k: int| 0 <= k < rest.len() implies rest[k] == pending[if k < at {
        k
    } else {
        k + 1
    }] && #[trigger] rest_origin[k] == origin[if k < at {
        k
    } else {
        k + 1
    }] by {}
}

/// Pending copies that read a temporary no longer wait for anything.
spec fn is_saved(copy: ValueCopy) -> bool {
    copy.source matches ValueLocation::Spill { offset, .. } && offset < FLAG_RESULT
}

spec fn unsaved(pending: Seq<ValueCopy>) -> nat
    decreases pending.len(),
{
    if pending.len() == 0 {
        0
    } else {
        unsaved(pending.drop_last()) + if is_saved(pending.last()) {
            0nat
        } else {
            1nat
        }
    }
}

proof fn lemma_unsaved_bound(pending: Seq<ValueCopy>)
    ensures
        unsaved(pending) <= pending.len(),
    decreases pending.len(),
{
    if pending.len() > 0 {
        lemma_unsaved_bound(pending.drop_last());
    }
}

/// Saving sources leaves fewer unsaved copies.
proof fn lemma_unsaved_map(a: Seq<ValueCopy>, b: Seq<ValueCopy>)
    requires
        a.len() == b.len(),
        forall|k: int| 0 <= k < a.len() ==> is_saved(#[trigger] a[k]) ==> is_saved(b[k]),
    ensures
        unsaved(b) <= unsaved(a),
        forall|k: int|
            0 <= k < a.len() && !is_saved(#[trigger] a[k]) && is_saved(b[k]) ==> unsaved(b)
                < unsaved(a),
    decreases a.len(),
{
    if a.len() > 0 {
        let n = a.len() - 1;
        assert forall|k: int| 0 <= k < n && is_saved(
            #[trigger] a.drop_last()[k],
        ) implies is_saved(b.drop_last()[k]) by {
            assert(a.drop_last()[k] == a[k]);
        }
        lemma_unsaved_map(a.drop_last(), b.drop_last());
        assert(is_saved(a[n]) ==> is_saved(b[n]));
        assert forall|k: int|
            0 <= k < a.len() && !is_saved(#[trigger] a[k]) && is_saved(b[k]) implies unsaved(b)
            < unsaved(a) by {
            if k < n {
                assert(a.drop_last()[k] == a[k] && b.drop_last()[k] == b[k]);
            }
        }
    }
}

/// Dropping copies leaves no more unsaved ones.
proof fn lemma_unsaved_remove(pending: Seq<ValueCopy>, at: int)
    requires
        0 <= at < pending.len(),
    ensures
        unsaved(pending.remove(at)) <= unsaved(pending),
    decreases pending.len(),
{
    let rest = pending.remove(at);
    if at == pending.len() - 1 {
        assert(rest =~= pending.drop_last());
    } else {
        assert(rest.drop_last() =~= pending.drop_last().remove(at));
        assert(rest.last() == pending.last());
        lemma_unsaved_remove(pending.drop_last(), at);
    }
}

/// Pending copies with every read of `source` redirected to `temporary`.
spec fn redirected(
    pending: Seq<ValueCopy>,
    source: ValueLocation,
    bytes: u8,
    temporary: ValueLocation,
) -> Seq<ValueCopy> {
    Seq::new(
        pending.len(),
        |k: int|
            if pending[k].source == source && pending[k].bytes == bytes {
                ValueCopy { source: temporary, ..pending[k] }
            } else {
                pending[k]
            },
    )
}

/// Saving one source in a temporary keeps the invariant.
proof fn lemma_save_step(
    abi: HostAbi,
    moves: Seq<ValueCopy>,
    copies: Seq<ValueCopy>,
    pending: Seq<ValueCopy>,
    origin: Seq<int>,
    end: u32,
    at: int,
    store: Store,
)
    requires
        valid_moves(abi, moves),
        pending_ok(abi, moves, pending, origin, end as int),
        progress(abi, moves, copies, pending, origin, store),
        0 <= at < pending.len(),
        end + 16 <= FLAG_RESULT,
    ensures
        ({
            let temporary = ValueLocation::Spill { offset: end, bytes: pending[at].bytes };
            progress(
                abi,
                moves,
                copies.push(
                    ValueCopy {
                        source: pending[at].source,
                        destination: temporary,
                        bytes: pending[at].bytes,
                    },
                ),
                redirected(pending, pending[at].source, pending[at].bytes, temporary),
                origin,
                store,
            )
        }),
{
    let bytes = pending[at].bytes;
    let temporary = ValueLocation::Spill { offset: end, bytes };
    let copy = ValueCopy { source: pending[at].source, destination: temporary, bytes };
    let next = redirected(pending, pending[at].source, bytes, temporary);
    let now = store.run(copies);
    let after = store.run(copies.push(copy));
    lemma_run_push(store, copies, copy);
    assert(valid_destination(abi, moves[origin[at]].destination, moves[origin[at]].bytes));
    lemma_copy(now, copy, ValueLocation::Constant(0), 0);
    assert forall|k: int| 0 <= k < next.len() implies after.read(
        (#[trigger] next[k]).source,
        next[k].bytes,
    ) == store.read(moves[origin[k]].source, moves[origin[k]].bytes) by {
        if pending[k].source == copy.source && pending[k].bytes == bytes {
            assert(after.read(temporary, bytes) == now.read(copy.source, bytes));
        } else {
            assert(valid_source(abi, pending[k].source, pending[k].bytes) || is_temporary(
                pending[k].source,
                pending[k].bytes,
                end as int,
            ));
            lemma_copy(now, copy, pending[k].source, pending[k].bytes);
        }
    }
    assert forall|m: int| 0 <= m < moves.len() && !origin.contains(m) implies after.read(
        (#[trigger] moves[m]).destination,
        moves[m].bytes,
    ) == store.read(moves[m].source, moves[m].bytes) by {
        assert(valid_destination(abi, moves[m].destination, moves[m].bytes));
        lemma_copy(now, copy, moves[m].destination, moves[m].bytes);
    }
    assert forall|location: ValueLocation, n: u8| #[trigger]
        untouched(abi, moves, location, n) implies after.read(location, n) == store.read(
        location,
        n,
    ) by {
        lemma_copy(now, copy, location, n);
    }
}

fn redirect(
    pending: &mut Vec<ValueCopy>,
    source: ValueLocation,
    bytes: u8,
    temporary: ValueLocation,
)
    ensures
        final(pending)@ == redirected(old(pending)@, source, bytes, temporary),
{
    let ghost before = pending@;
    let ghost all = redirected(before, source, bytes, temporary);
    let mut k: usize = 0;
    while k < pending.len()
        invariant
            k <= pending@.len(),
            pending@.len() == before.len(),
            all == redirected(before, source, bytes, temporary),
            forall|j: int| 0 <= j < k ==> #[trigger] pending@[j] == all[j],
            forall|j: int| k <= j < before.len() ==> #[trigger] pending@[j] == before[j],
        decreases pending@.len() - k,
    {
        let copy = pending[k];
        if copy.source == source && copy.bytes == bytes {
            pending.set(k, ValueCopy { source: temporary, ..copy });
        }
        k = k + 1;
    }
    proof {
        assert(pending@ =~= all);
    }
}

/// Everything the scheduler keeps between steps.
spec fn scheduling(
    abi: HostAbi,
    moves: Seq<ValueCopy>,
    copies: Seq<ValueCopy>,
    pending: Seq<ValueCopy>,
    origin: Seq<int>,
    end: int,
) -> bool {
    &&& valid_moves(abi, moves)
    &&& 0 <= end <= FLAG_RESULT
    &&& end % 16 == 0
    &&& end / 16 + unsaved(pending) <= moves.len()
    &&& pending_ok(abi, moves, pending, origin, end)
    &&& forall|store: Store| store.wf() ==> #[trigger] progress(
        abi,
        moves,
        copies,
        pending,
        origin,
        store,
    )
}

/// Saves every source that the first pending destination would overwrite. Each
/// saved operand leaves the dependency graph for good.
fn save_blockers(
    abi: HostAbi,
    moves: Ghost<Seq<ValueCopy>>,
    copies: &mut Vec<ValueCopy>,
    pending: &mut Vec<ValueCopy>,
    origin: Ghost<Seq<int>>,
    end: u32,
) -> (r: Option<u32>)
    requires
        scheduling(abi, moves@, old(copies)@, old(pending)@, origin@, end as int),
        old(pending)@.len() > 0,
        !is_ready(old(pending)@, 0),
    ensures
        match r {
            Some(next) => {
                &&& scheduling(
                    abi,
                    moves@,
                    final(copies)@,
                    final(pending)@,
                    origin@,
                    next as int,
                )
                &&& final(pending)@.len() == old(pending)@.len()
                &&& unsaved(final(pending)@) < unsaved(old(pending)@)
            },
            None => moves@.len() * 16 > FLAG_RESULT,
        },
{
    let destination = pending[0].destination;
    let ghost start = pending@;
    let mut end: u32 = end;
    let ghost start_end = end;
    let mut index: usize = 0;
    proof {
        assert(valid_destination(
            abi,
            moves@[origin@[0]].destination,
            moves@[origin@[0]].bytes,
        ));
        assert(start[0].destination == destination);
    }
    while index < pending.len()
        invariant
            index <= pending@.len(),
            pending@.len() == start.len(),
            start.len() > 0,
            start[0].destination == destination,
            valid_destination(abi, destination, start[0].bytes),
            scheduling(abi, moves@, copies@, pending@, origin@, end as int),
            start_end <= end,
            end == start_end ==> pending@ == start,
            end > start_end ==> unsaved(pending@) < unsaved(start),
            forall|j: int|
                0 <= j < index ==> !destination.overlaps((#[trigger] pending@[j]).source),
        decreases pending@.len() - index,
    {
        let input = pending[index];
        if locations_overlap(destination, input.source) {
            proof {
                lemma_unsaved_positive(pending@, index as int);
            }
            if end + 16 > FLAG_RESULT {
                return None;
            }
            let temporary = ValueLocation::Spill { offset: end, bytes: input.bytes };
            let ghost before = pending@;
            let ghost emitted = copies@;
            copies.push(
                ValueCopy { source: input.source, destination: temporary, bytes: input.bytes },
            );
            redirect(pending, input.source, input.bytes, temporary);
            proof {
                let next = pending@;
                assert forall|k: int| 0 <= k < before.len() && is_saved(
                    #[trigger] before[k],
                ) implies is_saved(next[k]) by {}
                lemma_unsaved_map(before, next);
                assert(!is_saved(before[index as int]));
                assert(is_saved(next[index as int]));
                assert(pending_ok(abi, moves@, next, origin@, end + 16)) by {
                    assert forall|k: int| 0 <= k < next.len() implies valid_source(
                        abi,
                        (#[trigger] next[k]).source,
                        next[k].bytes,
                    ) || is_temporary(next[k].source, next[k].bytes, end + 16) by {
                        assert(valid_source(abi, before[k].source, before[k].bytes)
                            || is_temporary(before[k].source, before[k].bytes, end as int));
                        assert(before[k].bytes == moves@[origin@[k]].bytes);
                        assert(valid_destination(
                            abi,
                            moves@[origin@[k]].destination,
                            moves@[origin@[k]].bytes,
                        ));
                    }
                }
                assert forall|store: Store| store.wf() implies #[trigger] progress(
                    abi,
                    moves@,
                    copies@,
                    next,
                    origin@,
                    store,
                ) by {
                    assert(progress(abi, moves@, emitted, before, origin@, store));
                    lemma_save_step(
                        abi,
                        moves@,
                        emitted,
                        before,
                        origin@,
                        end,
                        index as int,
                        store,
                    );
                }
            }
            end = end + 16;
        }
        index = index + 1;
    }
    proof {
        if end == start_end {
            assert(is_ready(start, 0));
        }
    }
    Some(end)
}

/// A source that some destination overlaps has not been saved.
proof fn lemma_unsaved_positive(pending: Seq<ValueCopy>, at: int)
    requires
        0 <= at < pending.len(),
    ensures
        !is_saved(pending[at]) ==> unsaved(pending) > 0,
    decreases pending.len(),
{
    if at < pending.len() - 1 {
        assert(pending.drop_last()[at] == pending[at]);
        lemma_unsaved_positive(pending.drop_last(), at);
    }
}

spec fn is_general(location: ValueLocation) -> bool {
    location matches ValueLocation::Register { class: RegisterClass::Integer, .. }
}

/// A closed cycle of general registers: each member reads what the next one
/// writes, the last reads what the first writes, and nobody else reads them.
spec fn is_cycle(pending: Seq<ValueCopy>, cycle: Seq<usize>) -> bool {
    &&& cycle.len() > 0
    &&& forall|i: int| 0 <= i < cycle.len() ==> #[trigger] cycle[i] < pending.len()
    &&& forall|i: int, j: int|
        0 <= i < j < cycle.len() ==> #[trigger] cycle[i] != #[trigger] cycle[j]
    &&& forall|i: int|
        0 <= i < cycle.len() ==> is_general(pending[#[trigger] cycle[i] as int].destination)
    &&& forall|i: int| 0 <= i < cycle.len() - 1 ==> #[trigger] reads_next(pending, cycle, i)
    &&& pending[cycle[cycle.len() - 1] as int].source == pending[cycle[0] as int].destination
    &&& forall|k: int|
        0 <= k < pending.len() && !cycle.contains(k as usize) ==> !reads_cycle(
            pending,
            cycle,
            #[trigger] pending[k],
        )
}

/// Member `i` reads what member `i + 1` writes.
spec fn reads_next(pending: Seq<ValueCopy>, cycle: Seq<usize>, i: int) -> bool {
    pending[cycle[i] as int].source == pending[cycle[i + 1] as int].destination
}

spec fn reads_cycle(pending: Seq<ValueCopy>, cycle: Seq<usize>, copy: ValueCopy) -> bool {
    exists|i: int|
        0 <= i < cycle.len() && pending[#[trigger] cycle[i] as int].destination == copy.source
}

spec fn separate_destinations(pending: Seq<ValueCopy>) -> bool {
    forall|j: int, k: int|
        0 <= j < pending.len() && 0 <= k < pending.len() && j != k
            ==> !(#[trigger] pending[j]).destination.overlaps((#[trigger] pending[k]).destination)
}

fn contains_index(list: &Vec<usize>, value: usize) -> (r: bool)
    ensures
        r == list@.contains(value),
{
    let mut k: usize = 0;
    while k < list.len()
        invariant
            k <= list@.len(),
            forall|j: int| 0 <= j < k ==> list@[j] != value,
        decreases list@.len() - k,
    {
        if list[k] == value {
            assert(list@[k as int] == value);
            return true;
        }
        k = k + 1;
    }
    false
}

/// The pending copy that writes `location`.
fn writer_of(pending: &Vec<ValueCopy>, location: ValueLocation) -> (r: Option<usize>)
    ensures
        match r {
            Some(at) => at < pending@.len() && pending@[at as int].destination == location,
            None => forall|k: int|
                0 <= k < pending@.len() ==> (#[trigger] pending@[k]).destination != location,
        },
{
    let mut k: usize = 0;
    while k < pending.len()
        invariant
            k <= pending@.len(),
            forall|j: int| 0 <= j < k ==> (#[trigger] pending@[j]).destination != location,
        decreases pending@.len() - k,
    {
        if pending[k].destination == location {
            return Some(k);
        }
        k = k + 1;
    }
    None
}

fn is_general_register(location: ValueLocation) -> (r: bool)
    ensures
        r == is_general(location),
{
    matches!(location, ValueLocation::Register { class: RegisterClass::Integer, .. })
}

/// Follows reads from `start` until they return to it.
fn cycle_from(pending: &Vec<ValueCopy>, start: usize) -> (r: Option<Vec<usize>>)
    requires
        start < pending@.len(),
        separate_destinations(pending@),
    ensures
        match r {
            Some(cycle) => is_cycle(pending@, cycle@) && cycle@[0] == start,
            None => forall|c: Seq<usize>| #[trigger] is_cycle(pending@, c) ==> c[0] != start,
        },
{
    let saved = pending[start].destination;
    if !is_general_register(saved) {
        proof {
            assert forall|c: Seq<usize>| #[trigger] is_cycle(pending@, c) implies c[0] != start by {
                assert(is_general(pending@[c[0] as int].destination));
            }
        }
        return None;
    }
    let mut cycle: Vec<usize> = Vec::new();
    cycle.push(start);
    let mut input = pending[start].source;
    while input != saved
        invariant
            start < pending@.len(),
            separate_destinations(pending@),
            saved == pending@[start as int].destination,
            is_general(saved),
            cycle@.len() > 0,
            cycle@.len() <= pending@.len(),
            cycle@[0] == start,
            input == pending@[cycle@[cycle@.len() - 1] as int].source,
            forall|i: int| 0 <= i < cycle@.len() ==> #[trigger] cycle@[i] < pending@.len(),
            forall|i: int, j: int|
                0 <= i < j < cycle@.len() ==> #[trigger] cycle@[i] != #[trigger] cycle@[j],
            forall|i: int|
                0 <= i < cycle@.len() ==> is_general(
                    pending@[#[trigger] cycle@[i] as int].destination,
                ),
            forall|i: int|
                0 <= i < cycle@.len() - 1 ==> #[trigger] reads_next(pending@, cycle@, i),
            forall|c: Seq<usize>| #[trigger]
                is_cycle(pending@, c) && c[0] == start ==> cycle@.len() <= c.len() && cycle@
                    == c.take(cycle@.len() as int),
        decreases pending@.len() - cycle@.len(),
    {
        let ghost n = cycle@.len() as int;
        if !is_general_register(input) {
            proof {
                assert forall|c: Seq<usize>| #[trigger] is_cycle(pending@, c) implies c[0]
                    != start by {
                    if c[0] == start {
                        assert(cycle@[n - 1] == c.take(n)[n - 1]);
                        assert(c[n - 1] == cycle@[n - 1]);
                        assert(n < c.len());
                        assert(reads_next(pending@, c, n - 1));
                        assert(is_general(pending@[c[n] as int].destination));
                    }
                }
            }
            return None;
        }
        let index = match writer_of(pending, input) {
            Some(index) => index,
            None => {
                proof {
                    assert forall|c: Seq<usize>| #[trigger] is_cycle(pending@, c) implies c[0]
                        != start by {
                        if c[0] == start {
                            assert(cycle@[n - 1] == c.take(n)[n - 1]);
                            assert(c[n - 1] == cycle@[n - 1]);
                            assert(n < c.len());
                            assert(reads_next(pending@, c, n - 1));
                            assert(pending@[c[n] as int].destination == input);
                        }
                    }
                }
                return None;
            },
        };
        proof {
            assert forall|c: Seq<usize>| #[trigger]
                is_cycle(pending@, c) && c[0] == start implies n < c.len() && c[n] == index by {
                assert(cycle@[n - 1] == c.take(n)[n - 1]);
                assert(c[n - 1] == cycle@[n - 1]);
                assert(n < c.len());
                assert(reads_next(pending@, c, n - 1));
                assert(pending@[c[n] as int].destination == input);
                if c[n] != index {
                    assert(!pending@[c[n] as int].destination.overlaps(
                        pending@[index as int].destination,
                    ));
                }
            }
        }
        if contains_index(&cycle, index) {
            proof {
                assert forall|c: Seq<usize>| #[trigger] is_cycle(pending@, c) implies c[0]
                    != start by {
                    if c[0] == start {
                        let i = choose|i: int| 0 <= i < n && cycle@[i] == index;
                        assert(cycle@[i] == c.take(n)[i]);
                        assert(c[i] == c[n]);
                    }
                }
            }
            return None;
        }
        proof {
            assert(!cycle@.contains(index));
            assert forall|i: int| 0 <= i < n implies #[trigger] cycle@[i] != index by {}
            lemma_distinct_bound(cycle@.push(index), pending@.len());
        }
        let ghost walked = cycle@;
        cycle.push(index);
        proof {
            assert forall|i: int| 0 <= i < cycle@.len() - 1 implies #[trigger] reads_next(
                pending@,
                cycle@,
                i,
            ) by {
                if i < n - 1 {
                    assert(reads_next(pending@, walked, i));
                }
            }
            assert forall|c: Seq<usize>| #[trigger]
                is_cycle(pending@, c) && c[0] == start implies cycle@.len() <= c.len() && cycle@
                == c.take(cycle@.len() as int) by {
                assert(n < c.len() && c[n] == index);
                assert(cycle@ =~= c.take(n + 1)) by {
                    assert forall|i: int| 0 <= i < n + 1 implies cycle@[i] == c.take(n + 1)[i] by {
                        if i < n {
                            assert(cycle@.drop_last()[i] == c.take(n)[i]);
                        }
                    }
                }
            }
        }
        input = pending[index].source;
    }
    let ghost n = cycle@.len() as int;
    let mut k: usize = 0;
    while k < pending.len()
        invariant
            k <= pending@.len(),
            n == cycle@.len(),
            cycle@.len() > 0,
            cycle@[0] == start,
            start < pending@.len(),
            saved == pending@[start as int].destination,
            input == saved,
            input == pending@[cycle@[n - 1] as int].source,
            forall|i: int| 0 <= i < cycle@.len() ==> #[trigger] cycle@[i] < pending@.len(),
            forall|i: int|
                0 <= i < cycle@.len() - 1 ==> #[trigger] reads_next(pending@, cycle@, i),
            forall|i: int|
                0 <= i < cycle@.len() ==> is_general(
                    pending@[#[trigger] cycle@[i] as int].destination,
                ),
            separate_destinations(pending@),
            forall|c: Seq<usize>| #[trigger]
                is_cycle(pending@, c) && c[0] == start ==> cycle@.len() <= c.len() && cycle@
                    == c.take(cycle@.len() as int),
            forall|j: int|
                0 <= j < k && !cycle@.contains(j as usize) ==> !reads_cycle(
                    pending@,
                    cycle@,
                    #[trigger] pending@[j],
                ),
        decreases pending@.len() - k,
    {
        if !contains_index(&cycle, k) {
            let mut i: usize = 0;
            while i < cycle.len()
                invariant
                    k < pending@.len(),
                    !cycle@.contains(k),
                    i <= cycle@.len(),
                    n == cycle@.len(),
                    n > 0,
                    start < pending@.len(),
                    cycle@[0] == start,
                    saved == pending@[start as int].destination,
                    input == saved,
                    input == pending@[cycle@[n - 1] as int].source,
                    separate_destinations(pending@),
                    forall|a: int| 0 <= a < cycle@.len() ==> #[trigger] cycle@[a] < pending@.len(),
                    forall|a: int|
                        0 <= a < cycle@.len() ==> is_general(
                            pending@[#[trigger] cycle@[a] as int].destination,
                        ),
                    forall|c: Seq<usize>| #[trigger]
                        is_cycle(pending@, c) && c[0] == start ==> cycle@.len() <= c.len() && cycle@
                            == c.take(cycle@.len() as int),
                    forall|a: int|
                        0 <= a < i ==> pending@[#[trigger] cycle@[a] as int].destination
                            != pending@[k as int].source,
                decreases cycle@.len() - i,
            {
                if pending[cycle[i]].destination == pending[k].source {
                    proof {
                        assert forall|c: Seq<usize>| #[trigger]
                            is_cycle(pending@, c) implies c[0] != start by {
                            if c[0] == start {
                                lemma_same_cycle(pending@, cycle@, c);
                                assert(cycle@[i as int] == c[i as int]);
                                assert(reads_cycle(pending@, c, pending@[k as int]));
                                assert(!c.contains(k));
                            }
                        }
                    }
                    return None;
                }
                i = i + 1;
            }
        }
        k = k + 1;
    }
    Some(cycle)
}

/// A cycle that starts with a closed walk is that walk.
proof fn lemma_same_cycle(pending: Seq<ValueCopy>, walk: Seq<usize>, c: Seq<usize>)
    requires
        is_cycle(pending, c),
        separate_destinations(pending),
        0 < walk.len() <= c.len(),
        walk == c.take(walk.len() as int),
        pending[walk[walk.len() - 1] as int].source == pending[walk[0] as int].destination,
    ensures
        walk == c,
{
    let n = walk.len() as int;
    assert(walk[n - 1] == c.take(n)[n - 1]);
    assert(walk[0] == c.take(n)[0]);
    if n < c.len() {
        assert(reads_next(pending, c, n - 1));
        assert(is_general(pending[c[n] as int].destination));
        assert(c[0] != c[n]);
        assert(!pending[c[n] as int].destination.overlaps(pending[c[0] as int].destination));
    }
    assert(walk =~= c);
}

/// Distinct indices below a bound are no more than the bound.
proof fn lemma_distinct_bound(list: Seq<usize>, bound: nat)
    requires
        forall|i: int| 0 <= i < list.len() ==> #[trigger] list[i] < bound,
        forall|i: int, j: int|
            0 <= i < j < list.len() ==> #[trigger] list[i] != #[trigger] list[j],
    ensures
        list.len() <= bound,
{
    let ints = list.map_values(|v: usize| v as int);
    assert(ints.no_duplicates()) by {
        assert forall|i: int, j: int| 0 <= i < ints.len() && 0 <= j < ints.len() && i != j implies ints[i]
            != ints[j] by {
            if i < j {
                assert(list[i] != list[j]);
            } else {
                assert(list[j] != list[i]);
            }
        }
    }
    ints.unique_seq_to_set();
    let below = vstd::set_lib::set_int_range(0, bound as int);
    vstd::set_lib::lemma_int_range(0, bound as int);
    assert forall|v: int| ints.to_set().contains(v) implies below.contains(v) by {
        let i = choose|i: int| 0 <= i < ints.len() && ints[i] == v;
        assert(list[i] < bound);
    }
    vstd::set_lib::lemma_len_subset(ints.to_set(), below);
}

fn find_cycle(pending: &Vec<ValueCopy>) -> (r: Option<Vec<usize>>)
    requires
        separate_destinations(pending@),
    ensures
        match r {
            Some(cycle) => is_cycle(pending@, cycle@),
            None => forall|c: Seq<usize>| !#[trigger] is_cycle(pending@, c),
        },
{
    let mut start: usize = 0;
    while start < pending.len()
        invariant
            start <= pending@.len(),
            separate_destinations(pending@),
            forall|c: Seq<usize>| #[trigger] is_cycle(pending@, c) ==> c[0] >= start,
        decreases pending@.len() - start,
    {
        if let Some(cycle) = cycle_from(pending, start) {
            return Some(cycle);
        }
        start = start + 1;
    }
    proof {
        assert forall|c: Seq<usize>| !#[trigger] is_cycle(pending@, c) by {
            if is_cycle(pending@, c) {
                assert(c[0] < pending@.len());
            }
        }
    }
    None
}

/// A cycle turned around one scratch register: the first destination is saved,
/// then every member is written before it is needed again.
spec fn cycle_copies(abi: HostAbi, pending: Seq<ValueCopy>, cycle: Seq<usize>) -> Seq<ValueCopy> {
    Seq::new(
        cycle.len() + 1,
        |i: int|
            if i == 0 {
                ValueCopy {
                    source: pending[cycle[0] as int].destination,
                    destination: scratch_of(abi),
                    bytes: 8,
                }
            } else if i == cycle.len() {
                ValueCopy { source: scratch_of(abi), ..pending[cycle[i - 1] as int] }
            } else {
                pending[cycle[i - 1] as int]
            },
    )
}

/// The location is neither the scratch register nor one of the first `count`
/// destinations of the cycle.
spec fn off_cycle(
    abi: HostAbi,
    pending: Seq<ValueCopy>,
    cycle: Seq<usize>,
    count: int,
    location: ValueLocation,
    bytes: u8,
) -> bool {
    &&& sized(location, bytes)
    &&& !scratch_of(abi).overlaps(location)
    &&& forall|i: int|
        0 <= i < count ==> !pending[#[trigger] cycle[i] as int].destination.overlaps(location)
}

proof fn lemma_cycle_run(
    abi: HostAbi,
    moves: Seq<ValueCopy>,
    copies: Seq<ValueCopy>,
    pending: Seq<ValueCopy>,
    origin: Seq<int>,
    end: int,
    cycle: Seq<usize>,
    count: int,
    store: Store,
)
    requires
        valid_moves(abi, moves),
        pending_ok(abi, moves, pending, origin, end),
        store.run(copies).wf(),
        is_cycle(pending, cycle),
        separate_destinations(pending),
        0 <= count <= cycle.len(),
    ensures
        ({
            let steps = cycle_copies(abi, pending, cycle);
            let before = store.run(copies);
            let after = store.run(copies + steps.take(count + 1));
            let saved = pending[cycle[0] as int].destination;
            &&& after.wf()
            &&& after.read(scratch_of(abi), 8) == before.read(saved, 8)
            &&& forall|i: int|
                0 <= i < count ==> after.read(
                    pending[#[trigger] cycle[i] as int].destination,
                    pending[cycle[i] as int].bytes,
                ) == before.read(pending[cycle[i] as int].source, pending[cycle[i] as int].bytes)
            &&& forall|location: ValueLocation, bytes: u8| #[trigger]
                off_cycle(abi, pending, cycle, count, location, bytes) ==> after.read(
                    location,
                    bytes,
                ) == before.read(location, bytes)
        }),
    decreases count,
{
    let steps = cycle_copies(abi, pending, cycle);
    let before = store.run(copies);
    let saved = pending[cycle[0] as int].destination;
    let scratch = scratch_of(abi);
    if count == 0 {
        assert((copies + steps.take(1)) =~= copies.push(steps[0]));
        lemma_run_push(store, copies, steps[0]);
        lemma_copy(before, steps[0], ValueLocation::Constant(0), 0);
        assert forall|location: ValueLocation, bytes: u8| #[trigger]
            off_cycle(abi, pending, cycle, 0, location, bytes) implies before.copy(steps[0]).read(
            location,
            bytes,
        ) == before.read(location, bytes) by {
            lemma_copy(before, steps[0], location, bytes);
        }
    } else {
        lemma_cycle_run(
            abi,
            moves,
            copies,
            pending,
            origin,
            end,
            cycle,
            count - 1,
            store,
        );
        let now = store.run(copies + steps.take(count));
        let step = steps[count];
        assert((copies + steps.take(count + 1)) =~= (copies + steps.take(count)).push(step));
        lemma_run_push(store, copies + steps.take(count), step);
        let k = cycle[count - 1] as int;
        let member = pending[k];
        assert(is_general(member.destination));
        assert(member.destination == moves[origin[k]].destination);
        assert(valid_destination(abi, moves[origin[k]].destination, moves[origin[k]].bytes));
        assert(member.bytes <= 8);
        assert(!scratch.overlaps(member.destination));
        // The value that the member writes.
        assert(now.read(step.source, member.bytes) == before.read(member.source, member.bytes)) by {
            if count == cycle.len() {
                assert(member.source == saved);
                assert(saved is Register);
                lemma_narrow_read(now, scratch, 8, member.bytes);
                lemma_narrow_read(before, saved, 8, member.bytes);
            } else {
                let next = cycle[count] as int;
                assert(reads_next(pending, cycle, count - 1));
                assert(is_general(pending[next].destination));
                assert(valid_destination(
                    abi,
                    moves[origin[next]].destination,
                    moves[origin[next]].bytes,
                ));
                assert(off_cycle(
                    abi,
                    pending,
                    cycle,
                    count - 1,
                    member.source,
                    member.bytes,
                )) by {
                    assert forall|i: int| 0 <= i < count - 1 implies !pending[#[trigger] cycle[i] as int].destination.overlaps(
                    member.source) by {
                        assert(cycle[i] != cycle[count]);
                        assert(!pending[cycle[i] as int].destination.overlaps(
                            pending[next].destination,
                        ));
                    }
                }
            }
        }
        lemma_copy(now, step, scratch, 8);
        assert(!member.destination.overlaps(scratch));
        let after = now.copy(step);
        assert forall|i: int| 0 <= i < count implies after.read(
            pending[#[trigger] cycle[i] as int].destination,
            pending[cycle[i] as int].bytes,
        ) == before.read(pending[cycle[i] as int].source, pending[cycle[i] as int].bytes) by {
            if i < count - 1 {
                let j = cycle[i] as int;
                assert(cycle[i] != cycle[count - 1]);
                assert(!pending[k].destination.overlaps(pending[j].destination));
                assert(valid_destination(abi, moves[origin[j]].destination, moves[origin[j]].bytes));
                lemma_copy(now, step, pending[j].destination, pending[j].bytes);
            }
        }
        assert forall|location: ValueLocation, bytes: u8| #[trigger]
            off_cycle(abi, pending, cycle, count, location, bytes) implies after.read(
            location,
            bytes,
        ) == before.read(location, bytes) by {
            assert(off_cycle(abi, pending, cycle, count - 1, location, bytes));
            assert(!pending[cycle[count - 1] as int].destination.overlaps(location));
            lemma_copy(now, step, location, bytes);
        }
    }
}

/// What is left of the pending copies, by position.
spec fn keeps_others(
    pending: Seq<ValueCopy>,
    cycle: Seq<usize>,
    rest: Seq<ValueCopy>,
    kept: Seq<int>,
    count: int,
) -> bool {
    &&& kept.len() == rest.len()
    &&& forall|k: int| 0 <= k < kept.len() ==> 0 <= #[trigger] kept[k] < count
    &&& forall|k: int| 0 <= k < kept.len() ==> !cycle.contains(#[trigger] kept[k] as usize)
    &&& forall|k: int| 0 <= k < kept.len() ==> rest[k] == pending[#[trigger] kept[k]]
    &&& forall|j: int, k: int|
        0 <= j < k < kept.len() ==> #[trigger] kept[j] < #[trigger] kept[k]
    &&& forall|p: int|
        0 <= p < count ==> cycle.contains(p as usize) || #[trigger] kept.contains(p)
}

fn drop_cycle(pending: &Vec<ValueCopy>, cycle: &Vec<usize>) -> (r: (Vec<ValueCopy>, Ghost<Seq<int>>))
    ensures
        keeps_others(pending@, cycle@, r.0@, r.1@, pending@.len() as int),
        unsaved(r.0@) <= unsaved(pending@),
        cycle@.len() > 0 && cycle@[0] < pending@.len() ==> r.0@.len() < pending@.len(),
{
    let mut rest: Vec<ValueCopy> = Vec::new();
    let mut kept: Ghost<Seq<int>> = Ghost(Seq::empty());
    let mut k: usize = 0;
    proof {
        assert(pending@.take(0) =~= Seq::<ValueCopy>::empty());
    }
    while k < pending.len()
        invariant
            k <= pending@.len(),
            keeps_others(pending@, cycle@, rest@, kept@, k as int),
            unsaved(rest@) <= unsaved(pending@.take(k as int)),
            rest@.len() <= k,
            cycle@.len() > 0 && cycle@[0] < k ==> rest@.len() < k,
        decreases pending@.len() - k,
    {
        let ghost before = rest@;
        let ghost old_kept = kept@;
        let skip = contains_index(cycle, k);
        if !skip {
            rest.push(pending[k]);
            proof {
                kept@ = kept@.push(k as int);
                assert(rest@.drop_last() =~= before);
            }
        }
        proof {
            assert(pending@.take(k + 1).drop_last() =~= pending@.take(k as int));
            assert forall|p: int| 0 <= p < k + 1 implies cycle@.contains(p as usize)
                || #[trigger] kept@.contains(p) by {
                if p < k {
                    if old_kept.contains(p) {
                        let j = choose|j: int| 0 <= j < old_kept.len() && old_kept[j] == p;
                        assert(kept@[j] == p);
                    }
                } else if !skip {
                    assert(kept@[kept@.len() - 1] == k);
                }
            }
            if cycle@.len() > 0 && cycle@[0] == k {
                assert(cycle@.contains(k));
            }
        }
        k = k + 1;
    }
    proof {
        assert(pending@.take(pending@.len() as int) =~= pending@);
    }
    (rest, kept)
}

/// Turning a cycle keeps the invariant.
proof fn lemma_cycle_step(
    abi: HostAbi,
    moves: Seq<ValueCopy>,
    copies: Seq<ValueCopy>,
    pending: Seq<ValueCopy>,
    origin: Seq<int>,
    end: int,
    cycle: Seq<usize>,
    rest: Seq<ValueCopy>,
    kept: Seq<int>,
    store: Store,
)
    requires
        valid_moves(abi, moves),
        end <= FLAG_RESULT,
        pending.len() <= usize::MAX,
        pending_ok(abi, moves, pending, origin, end),
        progress(abi, moves, copies, pending, origin, store),
        is_cycle(pending, cycle),
        separate_destinations(pending),
        keeps_others(pending, cycle, rest, kept, pending.len() as int),
    ensures
        progress(
            abi,
            moves,
            copies + cycle_copies(abi, pending, cycle),
            rest,
            kept.map_values(|p: int| origin[p]),
            store,
        ),
{
    let steps = cycle_copies(abi, pending, cycle);
    let n = cycle.len() as int;
    let now = store.run(copies);
    lemma_cycle_run(abi, moves, copies, pending, origin, end, cycle, n, store);
    assert(steps.take(n + 1) =~= steps);
    let after = store.run(copies + steps);
    let rest_origin = kept.map_values(|p: int| origin[p]);
    assert forall|k: int| 0 <= k < rest.len() implies after.read(
        (#[trigger] rest[k]).source,
        rest[k].bytes,
    ) == store.read(moves[rest_origin[k]].source, moves[rest_origin[k]].bytes) by {
        let p = kept[k];
        assert(rest[k] == pending[p]);
        assert(!reads_cycle(pending, cycle, pending[p]));
        assert(valid_source(abi, pending[p].source, pending[p].bytes) || is_temporary(
            pending[p].source,
            pending[p].bytes,
            end,
        ));
        assert(off_cycle(abi, pending, cycle, n, pending[p].source, pending[p].bytes)) by {
            assert forall|i: int| 0 <= i < n implies !pending[#[trigger] cycle[i] as int].destination.overlaps(
            pending[p].source) by {
                assert(is_general(pending[cycle[i] as int].destination));
                assert(pending[cycle[i] as int].destination != pending[p].source);
            }
        }
    }
    assert forall|m: int| 0 <= m < moves.len() && !rest_origin.contains(m) implies after.read(
        (#[trigger] moves[m]).destination,
        moves[m].bytes,
    ) == store.read(moves[m].source, moves[m].bytes) by {
        if origin.contains(m) {
            let p = choose|p: int| 0 <= p < origin.len() && origin[p] == m;
            assert(cycle.contains(p as usize)) by {
                if !cycle.contains(p as usize) {
                    assert(kept.contains(p));
                    let k = choose|k: int| 0 <= k < kept.len() && kept[k] == p;
                    assert(rest_origin[k] == m);
                }
            }
            let i = choose|i: int| 0 <= i < cycle.len() && cycle[i] == p as usize;
            assert(after.read(
                pending[cycle[i] as int].destination,
                pending[cycle[i] as int].bytes,
            ) == now.read(pending[cycle[i] as int].source, pending[cycle[i] as int].bytes));
            assert(pending[p].destination == moves[m].destination);
        } else {
            assert(valid_destination(abi, moves[m].destination, moves[m].bytes));
            assert(off_cycle(abi, pending, cycle, n, moves[m].destination, moves[m].bytes)) by {
                assert forall|i: int| 0 <= i < n implies !pending[#[trigger] cycle[i] as int].destination.overlaps(
                moves[m].destination) by {
                    let q = cycle[i] as int;
                    assert(pending[q].destination == moves[origin[q]].destination);
                    assert(origin[q] != m) by {
                        if origin[q] == m {
                            assert(origin.contains(m));
                        }
                    }
                    assert(!moves[origin[q]].destination.overlaps(moves[m].destination));
                }
            }
        }
    }
    assert forall|location: ValueLocation, bytes: u8| #[trigger]
        untouched(abi, moves, location, bytes) implies after.read(location, bytes) == store.read(
        location,
        bytes,
    ) by {
        assert(off_cycle(abi, pending, cycle, n, location, bytes)) by {
            assert forall|i: int| 0 <= i < n implies !pending[#[trigger] cycle[i] as int].destination.overlaps(
            location) by {
                let q = cycle[i] as int;
                assert(pending[q].destination == moves[origin[q]].destination);
                assert(!moves[origin[q]].destination.overlaps(location));
            }
        }
    }
}

proof fn lemma_separate(
    abi: HostAbi,
    moves: Seq<ValueCopy>,
    pending: Seq<ValueCopy>,
    origin: Seq<int>,
    end: int,
)
    requires
        valid_moves(abi, moves),
        pending_ok(abi, moves, pending, origin, end),
    ensures
        separate_destinations(pending),
{
    assert forall|j: int, k: int|
        0 <= j < pending.len() && 0 <= k < pending.len() && j != k implies !(
    #[trigger] pending[j]).destination.overlaps((#[trigger] pending[k]).destination) by {
        assert(origin[j] != origin[k]);
        assert(!moves[origin[j]].destination.overlaps(moves[origin[k]].destination));
    }
}

proof fn lemma_kept_ok(
    abi: HostAbi,
    moves: Seq<ValueCopy>,
    pending: Seq<ValueCopy>,
    origin: Seq<int>,
    end: int,
    cycle: Seq<usize>,
    rest: Seq<ValueCopy>,
    kept: Seq<int>,
)
    requires
        pending_ok(abi, moves, pending, origin, end),
        keeps_others(pending, cycle, rest, kept, pending.len() as int),
    ensures
        pending_ok(abi, moves, rest, kept.map_values(|p: int| origin[p]), end),
{
    let rest_origin = kept.map_values(|p: int| origin[p]);
    assert forall|k: int| 0 <= k < rest_origin.len() implies 0 <= #[trigger] rest_origin[k]
        < moves.len() by {
        assert(rest_origin[k] == origin[kept[k]]);
    }
    assert forall|j: int, k: int|
        0 <= j < rest_origin.len() && 0 <= k < rest_origin.len() && j != k implies
        #[trigger] rest_origin[j] != #[trigger] rest_origin[k] by {
        assert(rest_origin[j] == origin[kept[j]] && rest_origin[k] == origin[kept[k]]);
        if j < k {
            assert(kept[j] < kept[k]);
        } else {
            assert(kept[k] < kept[j]);
        }
    }
    assert forall|k: int| 0 <= k < rest.len() implies (#[trigger] rest[k]).destination
        == moves[rest_origin[k]].destination && rest[k].bytes == moves[rest_origin[k]].bytes by {
        assert(rest[k] == pending[kept[k]]);
    }
    assert forall|k: int| 0 <= k < rest.len() implies valid_source(
        abi,
        (#[trigger] rest[k]).source,
        rest[k].bytes,
    ) || is_temporary(rest[k].source, rest[k].bytes, end) by {
        assert(rest[k] == pending[kept[k]]);
    }
}

fn scratch_register(abi: HostAbi) -> (r: ValueLocation)
    ensures
        r == scratch_of(abi),
{
    let reserved = abi.reserved();
    ValueLocation::Register { class: RegisterClass::Integer, index: reserved.link_scratch[0] }
}

/// Turns one closed cycle of general registers around the scratch register, and
/// returns the copies that are left.
fn turn_cycle(
    abi: HostAbi,
    moves: Ghost<Seq<ValueCopy>>,
    copies: &mut Vec<ValueCopy>,
    pending: &Vec<ValueCopy>,
    origin: Ghost<Seq<int>>,
    end: Ghost<int>,
    cycle: &Vec<usize>,
) -> (r: (Vec<ValueCopy>, Ghost<Seq<int>>))
    requires
        scheduling(abi, moves@, old(copies)@, pending@, origin@, end@),
        is_cycle(pending@, cycle@),
    ensures
        scheduling(abi, moves@, final(copies)@, r.0@, r.1@, end@),
        r.0@.len() < pending@.len(),
{
    proof {
        lemma_separate(abi, moves@, pending@, origin@, end@);
    }
    let ghost before = copies@;
    let ghost steps = cycle_copies(abi, pending@, cycle@);
    let scratch = scratch_register(abi);
    let saved = pending[cycle[0]].destination;
    copies.push(ValueCopy { source: saved, destination: scratch, bytes: 8 });
    proof {
        assert(copies@ =~= before + steps.take(1));
    }
    let mut i: usize = 0;
    while i < cycle.len()
        invariant
            i <= cycle@.len(),
            is_cycle(pending@, cycle@),
            separate_destinations(pending@),
            saved == pending@[cycle@[0] as int].destination,
            scratch == scratch_of(abi),
            steps == cycle_copies(abi, pending@, cycle@),
            copies@ == before + steps.take(i + 1),
        decreases cycle@.len() - i,
    {
        let mut copy = pending[cycle[i]];
        proof {
            if i + 1 < cycle@.len() {
                assert(reads_next(pending@, cycle@, i as int));
                assert(cycle@[0] != cycle@[i + 1]);
                assert(is_general(pending@[cycle@[i + 1] as int].destination));
                assert(!pending@[cycle@[i + 1] as int].destination.overlaps(saved));
            }
        }
        if copy.source == saved {
            copy.source = scratch;
        }
        copies.push(copy);
        proof {
            assert(copy == steps[i + 1]);
            assert(copies@ =~= before + steps.take(i + 2));
        }
        i = i + 1;
    }
    let total: usize = pending.len();
    let (rest, kept) = drop_cycle(pending, cycle);
    let ghost rest_origin = kept@.map_values(|p: int| origin@[p]);
    proof {
        assert(steps.take((cycle@.len() + 1) as int) =~= steps);
        assert(pending@.len() <= usize::MAX) by {
            assert(total == pending@.len());
        }
        lemma_kept_ok(abi, moves@, pending@, origin@, end@, cycle@, rest@, kept@);
        assert forall|store: Store| store.wf() implies #[trigger] progress(
            abi,
            moves@,
            copies@,
            rest@,
            rest_origin,
            store,
        ) by {
            assert(progress(abi, moves@, before, pending@, origin@, store));
            lemma_cycle_step(
                abi,
                moves@,
                before,
                pending@,
                origin@,
                end@,
                cycle@,
                rest@,
                kept@,
                store,
            );
        }
    }
    (rest, Ghost(rest_origin))
}

/// Orders parallel moves, including cycles, aliases, constants and overlapping
/// spill ranges. A write is emitted only when it cannot destroy an input that is
/// still needed. The transfer area always suffices for up to 127 moves.
pub fn schedule(abi: HostAbi, moves: &Vec<ValueCopy>) -> (r: Option<Vec<ValueCopy>>)
    requires
        valid_moves(abi, moves@),
    ensures
        match r {
            Some(copies) => forall|store: Store| store.wf() ==> #[trigger] performs(
                abi,
                copies@,
                moves@,
                store,
            ),
            None => moves@.len() * 16 > FLAG_RESULT,
        },
        (forall|m: int|
            0 <= m < moves@.len() ==> (#[trigger] moves@[m]).source == moves@[m].destination) ==> (
        r matches Some(copies) && copies@.len() == 0),
{
    let mut copies: Vec<ValueCopy> = Vec::new();
    let mut pending: Vec<ValueCopy> = Vec::new();
    let mut origin: Ghost<Seq<int>> = Ghost(Seq::empty());
    let mut m: usize = 0;
    while m < moves.len()
        invariant
            m <= moves@.len(),
            valid_moves(abi, moves@),
            pending@.len() <= m,
            pending_ok(abi, moves@, pending@, origin@, 0),
            forall|k: int| 0 <= k < origin@.len() ==> #[trigger] origin@[k] < m,
            forall|k: int|
                0 <= k < pending@.len() ==> (#[trigger] pending@[k]).source
                    == moves@[origin@[k]].source,
            forall|j: int|
                0 <= j < m && !origin@.contains(j) ==> (#[trigger] moves@[j]).source
                    == moves@[j].destination,
            (forall|j: int|
                0 <= j < moves@.len() ==> (#[trigger] moves@[j]).source == moves@[j].destination)
                ==> pending@.len() == 0,
        decreases moves@.len() - m,
    {
        let step = moves[m];
        let ghost old_origin = origin@;
        if step.source != step.destination {
            pending.push(step);
            proof {
                origin@ = origin@.push(m as int);
                assert forall|j: int|
                    0 <= j < m + 1 && !origin@.contains(j) implies (#[trigger] moves@[j]).source
                    == moves@[j].destination by {
                    if old_origin.contains(j) {
                        let k = choose|k: int| 0 <= k < old_origin.len() && old_origin[k] == j;
                        assert(origin@[k] == j);
                    }
                    if j == m {
                        assert(origin@[origin@.len() - 1] == j);
                    }
                }
                assert(valid_source(abi, moves@[m as int].source, moves@[m as int].bytes));
            }
        }
        m = m + 1;
    }
    proof {
        lemma_unsaved_bound(pending@);
        assert forall|store: Store| store.wf() implies #[trigger] progress(
            abi,
            moves@,
            copies@,
            pending@,
            origin@,
            store,
        ) by {
            assert(store.run(copies@) == store);
        }
    }
    let mut end: u32 = 0;
    let ghost idle = forall|j: int|
        0 <= j < moves@.len() ==> (#[trigger] moves@[j]).source == moves@[j].destination;
    while pending.len() > 0
        invariant
            scheduling(abi, moves@, copies@, pending@, origin@, end as int),
            idle == forall|j: int|
                0 <= j < moves@.len() ==> (#[trigger] moves@[j]).source == moves@[j].destination,
            idle ==> pending@.len() == 0 && copies@.len() == 0,
        decreases pending@.len(), unsaved(pending@),
    {
        if let Some(at) = find_ready(&pending) {
            let ghost before = copies@;
            let ghost old_pending = pending@;
            let ghost old_origin = origin@;
            let copy = pending.remove(at);
            copies.push(copy);
            proof {
                origin@ = origin@.remove(at as int);
                lemma_remove_ok(abi, moves@, old_pending, old_origin, end as int, at as int);
                lemma_unsaved_remove(old_pending, at as int);
                assert forall|store: Store| store.wf() implies #[trigger] progress(
                    abi,
                    moves@,
                    copies@,
                    pending@,
                    origin@,
                    store,
                ) by {
                    assert(progress(abi, moves@, before, old_pending, old_origin, store));
                    lemma_ready_step(
                        abi,
                        moves@,
                        before,
                        old_pending,
                        old_origin,
                        end as int,
                        at as int,
                        store,
                    );
                }
            }
            continue ;
        }
        proof {
            lemma_separate(abi, moves@, pending@, origin@, end as int);
            assert(!is_ready(pending@, 0));
        }
        if let Some(cycle) = find_cycle(&pending) {
            let (rest, rest_origin) = turn_cycle(
                abi,
                Ghost(moves@),
                &mut copies,
                &pending,
                Ghost(origin@),
                Ghost(end as int),
                &cycle,
            );
            pending = rest;
            origin = rest_origin;
            continue ;
        }
        match save_blockers(abi, Ghost(moves@), &mut copies, &mut pending, Ghost(origin@), end) {
            Some(next) => {
                end = next;
            },
            None => {
                return None;
            },
        }
    }
    proof {
        assert forall|store: Store| store.wf() implies #[trigger] performs(
            abi,
            copies@,
            moves@,
            store,
        ) by {
            assert(progress(abi, moves@, copies@, pending@, origin@, store));
        }
    }
    Some(copies)
}

} // verus!
