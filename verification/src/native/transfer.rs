//! Plans for fast edges between native units.

use vstd::prelude::*;
use super::schedule::{
    performs, schedule, valid_destination, valid_moves, valid_source, FLAG_RESULT,
};
use super::store::{Store, ValueCopy};
use crate::abi::contract::{binding_fault, lemma_no_binding_fault};
use crate::abi::contract::{lemma_no_input_fault, nzcv_fault};
use crate::abi::{EntryContract, ExitStateMap, GuestValue, HostAbi, NzcvLocation, ValueBinding};
use crate::abi::ValueLocation;

verus! {

#[derive(Clone, Copy, Debug, PartialEq, Eq)]
pub enum TransferError {
    InvalidContract(&'static str),
    DifferentHostAbis,
    MissingValue(GuestValue),
    MissingFlags,
    TransferAreaExhausted,
}

/// What happens to the flags before the copies, while lazy operands are intact.
#[derive(Clone, Copy, Debug, PartialEq, Eq, Structural)]
pub enum FlagStep {
    Keep,
    /// Flip only the host carry.
    InvertHostCarry,
    /// Write these NZCV bits, packed, into the flag slot of the transfer area.
    Materialize { bits: u8 },
    /// Copy packed flags into the flag slot.
    SavePacked(ValueLocation),
}

/// A fast edge: a flag step, copies, and the installation of host flags from the
/// flag slot with the given carry convention.
pub struct TransferPlan {
    pub flags: FlagStep,
    pub copies: Vec<ValueCopy>,
    pub install_host: Option<bool>,
}

pub open spec fn flag_slot() -> ValueLocation {
    ValueLocation::Spill { offset: FLAG_RESULT, bytes: 4 }
}

/// The location that the bindings give a value.
pub open spec fn location_of(bindings: Seq<ValueBinding>, value: GuestValue) -> Option<ValueLocation>
    decreases bindings.len(),
{
    if bindings.len() == 0 {
        None
    } else if bindings[0].value == value {
        Some(bindings[0].location)
    } else {
        location_of(bindings.skip(1), value)
    }
}

/// The first value at or after `from` that the source does not supply.
pub open spec fn first_missing(
    source: Seq<ValueBinding>,
    target: Seq<ValueBinding>,
    from: int,
) -> Option<GuestValue>
    decreases target.len() - from,
{
    if from < 0 || from >= target.len() {
        None
    } else if location_of(source, target[from].value) is None {
        Some(target[from].value)
    } else {
        first_missing(source, target, from + 1)
    }
}

/// Flags that the target reads and the source does not hold.
pub open spec fn lacks_flags(source: ExitStateMap, target: EntryContract) -> bool {
    target.live_in.nzcv & !source.live.nzcv != 0
}

/// One move for each input of the target.
pub open spec fn value_moves(source: ExitStateMap, target: EntryContract) -> Seq<ValueCopy> {
    Seq::new(
        target.bindings@.len(),
        |k: int|
            ValueCopy {
                source: location_of(source.bindings@, target.bindings@[k].value)->0,
                destination: target.bindings@[k].location,
                bytes: target.bindings@[k].value.width(),
            },
    )
}

/// Where live flags start out that the target wants packed.
pub open spec fn packed_source(source: ExitStateMap) -> ValueLocation {
    match source.nzcv {
        NzcvLocation::Packed(location) => location,
        _ => flag_slot(),
    }
}

/// The moves of an edge: its values, and its flags where the target wants them
/// packed.
pub open spec fn edge_moves(source: ExitStateMap, target: EntryContract) -> Seq<ValueCopy> {
    let values = value_moves(source, target);
    if target.live_in.nzcv == 0 {
        values
    } else {
        match target.nzcv {
            NzcvLocation::Packed(destination) => values.push(
                ValueCopy { source: packed_source(source), destination, bytes: 4 },
            ),
            _ => values,
        }
    }
}

/// The flag step of an edge.
pub open spec fn edge_flags(source: ExitStateMap, target: EntryContract) -> FlagStep {
    let bits = target.live_in.nzcv;
    if bits == 0 {
        FlagStep::Keep
    } else {
        match (source.nzcv, target.nzcv) {
            (NzcvLocation::Packed(_), NzcvLocation::Packed(_)) => FlagStep::Keep,
            (
                NzcvLocation::Host { carry_inverted: a },
                NzcvLocation::Host { carry_inverted: b },
            ) => if a != b {
                FlagStep::InvertHostCarry
            } else {
                FlagStep::Keep
            },
            (NzcvLocation::Packed(location), NzcvLocation::Host { .. }) => FlagStep::SavePacked(
                location,
            ),
            _ => FlagStep::Materialize { bits },
        }
    }
}

/// The host flags that the edge installs after its copies.
pub open spec fn edge_install(source: ExitStateMap, target: EntryContract) -> Option<bool> {
    match target.nzcv {
        NzcvLocation::Host { carry_inverted } => if target.live_in.nzcv != 0 && !(
        source.nzcv is Host) {
            Some(carry_inverted)
        } else {
            None
        },
        _ => None,
    }
}

fn find_location(bindings: &Vec<ValueBinding>, value: GuestValue) -> (r: Option<ValueLocation>)
    ensures
        r == location_of(bindings@, value),
{
    let mut k: usize = 0;
    proof {
        assert(bindings@.skip(0) =~= bindings@);
    }
    while k < bindings.len()
        invariant
            k <= bindings@.len(),
            location_of(bindings@, value) == location_of(bindings@.skip(k as int), value),
        decreases bindings@.len() - k,
    {
        proof {
            assert(bindings@.skip(k as int).skip(1) =~= bindings@.skip(k + 1));
        }
        if bindings[k].value == value {
            return Some(bindings[k].location);
        }
        k = k + 1;
    }
    None
}

proof fn lemma_location_found(bindings: Seq<ValueBinding>, value: GuestValue)
    ensures
        location_of(bindings, value) matches Some(location) ==> exists|k: int|
            0 <= k < bindings.len() && (#[trigger] bindings[k]).value == value
                && bindings[k].location == location,
    decreases bindings.len(),
{
    if bindings.len() > 0 && bindings[0].value != value {
        lemma_location_found(bindings.skip(1), value);
        if location_of(bindings, value) is Some {
            let location = location_of(bindings, value)->0;
            let k = choose|k: int|
                0 <= k < bindings.skip(1).len() && (#[trigger] bindings.skip(1)[k]).value == value
                    && bindings.skip(1)[k].location == location;
            assert(bindings[k + 1].value == value);
        }
    }
}

spec fn value_number(value: GuestValue) -> int {
    match value {
        GuestValue::General(index) => index as int,
        GuestValue::Sp => 31,
        GuestValue::Vector(index) => 32 + index,
        GuestValue::Fpcr => 64,
        GuestValue::Fpsr => 65,
        GuestValue::TpidrEl0 => 66,
        GuestValue::TpidrroEl0 => 67,
    }
}

/// A valid contract binds each guest value once, and there are 68 of them.
proof fn lemma_bindings_bounded(abi: HostAbi, bindings: Seq<ValueBinding>)
    requires
        forall|k: int| 0 <= k < bindings.len() ==> #[trigger] binding_fault(abi, bindings, k) is None,
    ensures
        bindings.len() <= 68,
{
    let numbers = Seq::new(bindings.len(), |k: int| value_number(bindings[k].value));
    let all = vstd::set_lib::set_int_range(0, 68);
    vstd::set_lib::lemma_int_range(0, 68);
    assert forall|k: int| 0 <= k < bindings.len() implies 0 <= #[trigger] numbers[k] < 68 by {
        assert(binding_fault(abi, bindings, k) is None);
    }
    assert(numbers.no_duplicates()) by {
        assert forall|i: int, j: int|
            0 <= i < numbers.len() && 0 <= j < numbers.len() && i != j implies numbers[i]
            != numbers[j] by {
            let (low, high) = if i < j {
                (i, j)
            } else {
                (j, i)
            };
            assert(binding_fault(abi, bindings, high) is None);
            assert(binding_fault(abi, bindings, low) is None);
            assert(bindings[low].value != bindings[high].value);
        }
    }
    numbers.unique_seq_to_set();
    assert forall|v: int| numbers.to_set().contains(v) implies all.contains(v) by {
        let k = choose|k: int| 0 <= k < numbers.len() && numbers[k] == v;
        assert(0 <= numbers[k] < 68);
    }
    vstd::set_lib::lemma_len_subset(numbers.to_set(), all);
}

proof fn lemma_edge_moves_valid(source: ExitStateMap, target: EntryContract)
    requires
        source.fault() is None,
        target.fault() is None,
        source.abi == target.abi,
        first_missing(source.bindings@, target.bindings@, 0) is None,
    ensures
        valid_moves(source.abi, edge_moves(source, target)),
        edge_moves(source, target).len() <= 69,
{
    let abi = source.abi;
    let moves = edge_moves(source, target);
    let values = value_moves(source, target);
    let n = target.bindings@.len() as int;
    assert forall|k: int| 0 <= k < n implies #[trigger] binding_fault(
        abi,
        target.bindings@,
        k,
    ) is None by {
        lemma_no_binding_fault(abi, target.bindings@, 0, k);
    }
    lemma_bindings_bounded(abi, target.bindings@);
    assert forall|k: int| 0 <= k < n implies valid_source(
        abi,
        (#[trigger] values[k]).source,
        values[k].bytes,
    ) && valid_destination(abi, values[k].destination, values[k].bytes) by {
        let value = target.bindings@[k].value;
        lemma_present(source.bindings@, target.bindings@, 0, k);
        lemma_location_found(source.bindings@, value);
        let j = choose|j: int|
            0 <= j < source.bindings@.len() && (#[trigger] source.bindings@[j]).value == value
                && source.bindings@[j].location == location_of(source.bindings@, value)->0;
        lemma_no_binding_fault(abi, source.bindings@, 0, j);
        assert(binding_fault(abi, target.bindings@, k) is None);
        lemma_no_input_fault(target.bindings@, 0, k);
    }
    assert forall|i: int, j: int| 0 <= i < n && 0 <= j < n && i != j implies !(
    #[trigger] values[i]).destination.overlaps((#[trigger] values[j]).destination) by {
        let (low, high) = if i < j {
            (i, j)
        } else {
            (j, i)
        };
        lemma_no_input_fault(target.bindings@, 0, high);
        assert(!target.bindings@[high].location.overlaps(target.bindings@[low].location));
    }
    if target.live_in.nzcv != 0 {
        if let NzcvLocation::Packed(destination) = target.nzcv {
            assert(target.flag_input_fault() is None);
            assert(nzcv_fault(target.abi, target.live_in.nzcv, target.nzcv) is None);
            assert(nzcv_fault(source.abi, source.live.nzcv, source.nzcv) is None);
            assert(destination.valid_for(abi, 4));
            assert(!(destination is Constant));
            assert forall|j: int| 0 <= j < n implies !destination.overlaps(
                (#[trigger] target.bindings@[j]).location,
            ) by {}
            assert(valid_destination(abi, destination, 4));
            assert(valid_source(abi, packed_source(source), 4));
            assert forall|i: int, j: int|
                0 <= i < moves.len() && 0 <= j < moves.len() && i != j implies !(
            #[trigger] moves[i]).destination.overlaps((#[trigger] moves[j]).destination) by {
                if i < n && j < n {
                    assert(moves[i] == values[i] && moves[j] == values[j]);
                } else if i < n {
                    assert(!destination.overlaps(target.bindings@[i].location));
                } else {
                    assert(!destination.overlaps(target.bindings@[j].location));
                }
            }
        }
    }
}

proof fn lemma_present(
    source: Seq<ValueBinding>,
    target: Seq<ValueBinding>,
    from: int,
    k: int,
)
    requires
        first_missing(source, target, from) is None,
        0 <= from <= k < target.len(),
    ensures
        location_of(source, target[k].value) is Some,
    decreases k - from,
{
    if from < k {
        lemma_present(source, target, from + 1, k);
    }
}

/// Every value lies where it is wanted.
pub open spec fn in_place(moves: Seq<ValueCopy>) -> bool {
    forall|m: int| 0 <= m < moves.len() ==> (#[trigger] moves[m]).source == moves[m].destination
}

/// An edge between contracts that match already does nothing: every input lies where
/// the target wants it, and so do the flags that it reads.
pub proof fn law_matching_contracts_need_nothing(source: ExitStateMap, target: EntryContract)
    requires
        source.fault() is None,
        target.fault() is None,
        source.abi == target.abi,
        forall|k: int|
            0 <= k < target.bindings@.len() ==> location_of(
                source.bindings@,
                (#[trigger] target.bindings@[k]).value,
            ) == Some(target.bindings@[k].location),
        target.live_in.nzcv != 0 ==> {
            &&& target.live_in.nzcv & !source.live.nzcv == 0
            &&& match (source.nzcv, target.nzcv) {
                (NzcvLocation::Packed(a), NzcvLocation::Packed(b)) => a == b,
                (NzcvLocation::Host { carry_inverted: a }, NzcvLocation::Host { carry_inverted: b })
                    => a == b,
                _ => false,
            }
        },
    ensures
        first_missing(source.bindings@, target.bindings@, 0) is None,
        !lacks_flags(source, target),
        edge_flags(source, target) == FlagStep::Keep,
        edge_install(source, target) is None,
        in_place(edge_moves(source, target)),
{
    lemma_none_missing(source.bindings@, target.bindings@, 0);
    let held = source.live.nzcv;
    assert(0u8 & !held == 0) by (bit_vector);
}

proof fn lemma_none_missing(source: Seq<ValueBinding>, target: Seq<ValueBinding>, from: int)
    requires
        0 <= from <= target.len(),
        forall|k: int|
            from <= k < target.len() ==> location_of(source, (#[trigger] target[k]).value) is Some,
    ensures
        first_missing(source, target, from) is None,
    decreases target.len() - from,
{
    if from < target.len() {
        assert(location_of(source, target[from].value) is Some);
        lemma_none_missing(source, target, from + 1);
    }
}

/// Plans the flag conversion and the parallel copies of a fast edge. Values that
/// already match need no copy. No required value is dropped: the plan moves every
/// input of the target, whatever aliases or cycles there are, or the edge is
/// refused.
pub fn emit_fast_transfer(source: &ExitStateMap, target: &EntryContract) -> (r: Result<
    TransferPlan,
    TransferError,
>)
    ensures
        match r {
            Ok(plan) => {
                &&& source.fault() is None
                &&& target.fault() is None
                &&& source.abi == target.abi
                &&& first_missing(source.bindings@, target.bindings@, 0) is None
                &&& !lacks_flags(*source, *target)
                &&& plan.flags == edge_flags(*source, *target)
                &&& plan.install_host == edge_install(*source, *target)
                &&& forall|store: Store|
                    store.wf() ==> #[trigger] performs(
                        source.abi,
                        plan.copies@,
                        edge_moves(*source, *target),
                        store,
                    )
                // What already lies in its place is not copied.
                &&& in_place(edge_moves(*source, *target)) ==> plan.copies@.len() == 0
            },
            Err(TransferError::InvalidContract(reason)) => source.fault() == Some(reason@) || (
            source.fault() is None && target.fault() == Some(reason@)),
            Err(TransferError::DifferentHostAbis) => {
                &&& source.fault() is None && target.fault() is None
                &&& source.abi != target.abi
            },
            Err(TransferError::MissingValue(value)) => {
                &&& source.fault() is None && target.fault() is None
                &&& source.abi == target.abi
                &&& first_missing(source.bindings@, target.bindings@, 0) == Some(value)
            },
            Err(TransferError::MissingFlags) => {
                &&& source.fault() is None && target.fault() is None
                &&& source.abi == target.abi
                &&& first_missing(source.bindings@, target.bindings@, 0) is None
                &&& lacks_flags(*source, *target)
            },
            Err(TransferError::TransferAreaExhausted) => false,
        },
{
    if let Err(reason) = source.validate() {
        return Err(TransferError::InvalidContract(reason));
    }
    if let Err(reason) = target.validate() {
        return Err(TransferError::InvalidContract(reason));
    }
    if source.abi != target.abi {
        return Err(TransferError::DifferentHostAbis);
    }
    let mut moves: Vec<ValueCopy> = Vec::new();
    let mut k: usize = 0;
    while k < target.bindings.len()
        invariant
            k <= target.bindings@.len(),
            source.fault() is None,
            target.fault() is None,
            source.abi == target.abi,
            first_missing(source.bindings@, target.bindings@, 0) == first_missing(
                source.bindings@,
                target.bindings@,
                k as int,
            ),
            moves@ == value_moves(*source, *target).take(k as int),
        decreases target.bindings@.len() - k,
    {
        let binding = target.bindings[k];
        match find_location(&source.bindings, binding.value) {
            None => return Err(TransferError::MissingValue(binding.value)),
            Some(location) => {
                moves.push(
                    ValueCopy {
                        source: location,
                        destination: binding.location,
                        bytes: binding.value.bytes(),
                    },
                );
            },
        }
        proof {
            assert(moves@ =~= value_moves(*source, *target).take(k + 1));
        }
        k = k + 1;
    }
    proof {
        assert(moves@ =~= value_moves(*source, *target));
        lemma_edge_moves_valid(*source, *target);
    }
    let bits: u8 = target.live_in.nzcv;
    let mut flags = FlagStep::Keep;
    let mut install_host: Option<bool> = None;
    if bits != 0 {
        if bits & !source.live.nzcv != 0 {
            return Err(TransferError::MissingFlags);
        }
        match (&source.nzcv, &target.nzcv) {
            (NzcvLocation::Packed(from), NzcvLocation::Packed(destination)) => {
                moves.push(ValueCopy { source: *from, destination: *destination, bytes: 4 });
            },
            (
                NzcvLocation::Host { carry_inverted: a },
                NzcvLocation::Host { carry_inverted: b },
            ) => {
                if *a != *b {
                    flags = FlagStep::InvertHostCarry;
                }
            },
            (_, NzcvLocation::Packed(destination)) => {
                flags = FlagStep::Materialize { bits };
                moves.push(
                    ValueCopy {
                        source: ValueLocation::Spill { offset: FLAG_RESULT, bytes: 4 },
                        destination: *destination,
                        bytes: 4,
                    },
                );
            },
            (NzcvLocation::Packed(from), NzcvLocation::Host { carry_inverted }) => {
                flags = FlagStep::SavePacked(*from);
                install_host = Some(*carry_inverted);
            },
            (_, NzcvLocation::Host { carry_inverted }) => {
                flags = FlagStep::Materialize { bits };
                install_host = Some(*carry_inverted);
            },
            _ => {
                // Live flags are packed or host flags in a valid target.
                assert(target.flag_input_fault() is None);
                assert(false);
            },
        }
    } else {
        proof {
            let held = source.live.nzcv;
            assert(0u8 & !held == 0) by (bit_vector);
        }
    }
    proof {
        assert(moves@ =~= edge_moves(*source, *target));
    }
    match schedule(source.abi, &moves) {
        Some(copies) => Ok(TransferPlan { flags, copies, install_host }),
        None => {
            assert(false);
            Err(TransferError::TransferAreaExhausted)
        },
    }
}

/// Across a fast edge every input that the target reads holds, where the target
/// wants it, what the source held, and registers and spill slots that the target
/// does not name keep their values.
pub proof fn law_edge_delivers_inputs(
    source: ExitStateMap,
    target: EntryContract,
    copies: Seq<ValueCopy>,
    store: Store,
    k: int,
)
    requires
        performs(source.abi, copies, edge_moves(source, target), store),
        0 <= k < target.bindings@.len(),
    ensures
        store.run(copies).read(
            target.bindings@[k].location,
            target.bindings@[k].value.width(),
        ) == store.read(
            location_of(source.bindings@, target.bindings@[k].value)->0,
            target.bindings@[k].value.width(),
        ),
{
    let moves = edge_moves(source, target);
    assert(moves[k] == value_moves(source, target)[k]);
    assert(store.run(copies).read(moves[k].destination, moves[k].bytes) == store.read(
        moves[k].source,
        moves[k].bytes,
    ));
}

} // verus!
