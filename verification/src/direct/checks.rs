//! The checks that native code makes while it runs, on the words that it reads.

use vstd::prelude::*;
use super::flags::BitExpr;
use crate::abi::exit::NativeExitReason;

verus! {

/// A check of native code, and how it stops where the check holds.
pub struct ExitCheck<Value> {
    pub when: BitExpr<Value>,
    pub reason: NativeExitReason,
}

/// The guest's code may have changed since it was looked at, or the process ends.
pub fn reconcile_check<Value>(signal: Value, observed: Value, process_pending: Value) -> (r:
    ExitCheck<Value>)
    ensures
        r.reason == NativeExitReason::Reconcile,
        forall|env: spec_fn(Value) -> u64| #[trigger]
            r.when.eval(env) == (env(signal) != env(observed) || env(process_pending) != 0),
{
    let changed = BitExpr::Not(Box::new(BitExpr::Same(signal, observed)));
    let ends = BitExpr::Not(Box::new(BitExpr::IsZero(process_pending)));
    let when = BitExpr::Or(Box::new(changed), Box::new(ends));
    proof {
        reveal_with_fuel(BitExpr::eval, 3);
    }
    ExitCheck { when, reason: NativeExitReason::Reconcile }
}

/// The thread has requests.
pub fn control_check<Value>(control_pending: Value) -> (r: ExitCheck<Value>)
    ensures
        r.reason == NativeExitReason::Control,
        forall|env: spec_fn(Value) -> u64| #[trigger]
            r.when.eval(env) == (env(control_pending) != 0),
{
    proof {
        reveal_with_fuel(BitExpr::eval, 2);
    }
    ExitCheck {
        when: BitExpr::Not(Box::new(BitExpr::IsZero(control_pending))),
        reason: NativeExitReason::Control,
    }
}

/// How native code stops, where the checks are made in order.
pub open spec fn first_exit<Value>(checks: Seq<ExitCheck<Value>>, env: spec_fn(Value) -> u64) -> Option<
    NativeExitReason,
>
    decreases checks.len(),
{
    if checks.len() == 0 {
        None
    } else if checks[0].when.eval(env) {
        Some(checks[0].reason)
    } else {
        first_exit(checks.drop_first(), env)
    }
}

/// A change of memory is told before requests to the thread are.
pub proof fn law_changes_come_before_requests<Value>(
    reconcile: ExitCheck<Value>,
    control: ExitCheck<Value>,
    env: spec_fn(Value) -> u64,
)
    requires
        reconcile.reason == NativeExitReason::Reconcile,
        control.reason == NativeExitReason::Control,
    ensures
        first_exit(seq![reconcile, control], env) == if reconcile.when.eval(env) {
            Some(NativeExitReason::Reconcile)
        } else if control.when.eval(env) {
            Some(NativeExitReason::Control)
        } else {
            None
        },
{
    reveal_with_fuel(first_exit, 3);
    assert(seq![reconcile, control].drop_first() =~= seq![control]);
}

/// The host's floating-point unit is to be set up for the guest.
pub fn activate_when<Value>(active: Value, native_fp_enabled: Value) -> (r: BitExpr<Value>)
    ensures
        forall|env: spec_fn(Value) -> u64| #[trigger]
            r.eval(env) == (env(active) == 0 && env(native_fp_enabled) != 0),
{
    proof {
        reveal_with_fuel(BitExpr::eval, 2);
    }
    BitExpr::And(Box::new(BitExpr::IsZero(active)), Box::new(BitExpr::Word(native_fp_enabled)))
}

/// The last run before a region is to be compiled better, where `one` holds one. Every
/// run takes one from the count.
pub fn promote_when<Value>(count: Value, one: Value) -> (r: BitExpr<Value>)
    ensures
        forall|env: spec_fn(Value) -> u64| #[trigger] r.eval(env) == (env(count) == env(one)),
{
    BitExpr::Same(count, one)
}

/// The counter after some runs.
pub open spec fn counter_after(count: u32, runs: nat) -> int
    decreases runs,
{
    if runs == 0 {
        count as int
    } else {
        counter_after(count, (runs - 1) as nat) - 1
    }
}

/// A counter that starts above zero asks for better code on exactly the run that
/// its value names, and on none before.
pub proof fn law_promotion_comes_once(count: u32, runs: nat)
    requires
        runs < count,
    ensures
        counter_after(count, runs) == count - runs,
        counter_after(count, runs) == 1 <==> runs == count - 1,
    decreases runs,
{
    if runs > 0 {
        law_promotion_comes_once(count, (runs - 1) as nat);
    }
}

/// It is time to poll. Every other backward branch takes one from the counter.
pub fn poll_when<Value>(counter: Value) -> (r: BitExpr<Value>)
    ensures
        forall|env: spec_fn(Value) -> u64| #[trigger] r.eval(env) == (env(counter) == 0),
{
    BitExpr::IsZero(counter)
}

/// Native code for the target is entered directly. The address at which the loader
/// takes over is not guest code.
pub fn link_when<Value>(entry: Value, target: Value, loader_return: Value) -> (r: BitExpr<Value>)
    ensures
        forall|env: spec_fn(Value) -> u64| #[trigger]
            r.eval(env) == (env(entry) != 0 && env(target) != env(loader_return)),
{
    proof {
        reveal_with_fuel(BitExpr::eval, 3);
    }
    let published = BitExpr::Not(Box::new(BitExpr::IsZero(entry)));
    let guest = BitExpr::Not(Box::new(BitExpr::Same(target, loader_return)));
    BitExpr::And(Box::new(published), Box::new(guest))
}

/// A node of a lookup slot serves the target.
pub fn serve_when<Value: Copy>(entry: Value, pc: Value, target: Value, loader_return: Value) -> (r:
    BitExpr<Value>)
    ensures
        forall|env: spec_fn(Value) -> u64| #[trigger]
            r.eval(env) == (env(entry) != 0 && env(pc) == env(target) && env(target) != env(
                loader_return,
            )),
{
    let same = BitExpr::Same(pc, target);
    let linked = link_when(entry, target, loader_return);
    proof {
        reveal_with_fuel(BitExpr::eval, 2);
        assert forall|env: spec_fn(Value) -> u64| #[trigger]
            BitExpr::And(Box::new(same), Box::new(linked)).eval(env) == (env(entry) != 0 && env(pc)
                == env(target) && env(target) != env(loader_return)) by {
            assert(same.eval(env) == (env(pc) == env(target)));
            assert(linked.eval(env) == (env(entry) != 0 && env(target) != env(loader_return)));
        }
    }
    BitExpr::And(Box::new(same), Box::new(linked))
}

/// A word that native code computes.
pub enum WordExpr<Value> {
    Value(Value),
    Constant(u64),
    ShiftRight { word: Box<WordExpr<Value>>, bits: u8 },
    Xor(Box<WordExpr<Value>>, Box<WordExpr<Value>>),
    And(Box<WordExpr<Value>>, Box<WordExpr<Value>>),
}

impl<Value> WordExpr<Value> {
    /// The word, where each value holds the word that `env` gives.
    pub open spec fn eval(self, env: spec_fn(Value) -> u64) -> u64
        decreases self,
    {
        match self {
            WordExpr::Value(value) => env(value),
            WordExpr::Constant(word) => word,
            WordExpr::ShiftRight { word, bits } => word.eval(env) >> bits,
            WordExpr::Xor(a, b) => a.eval(env) ^ b.eval(env),
            WordExpr::And(a, b) => a.eval(env) & b.eval(env),
        }
    }
}

fn mixed_part<Value>(target: Value, bits: u8) -> (r: WordExpr<Value>)
    ensures
        forall|env: spec_fn(Value) -> u64| #[trigger] r.eval(env) == (env(target) >> 2u8) >> bits,
{
    proof {
        reveal_with_fuel(WordExpr::eval, 3);
    }
    let words = WordExpr::ShiftRight { word: Box::new(WordExpr::Value(target)), bits: 2 };
    WordExpr::ShiftRight { word: Box::new(words), bits }
}

/// How native code finds the slot of the lookup table for an address.
pub fn lookup_expression<Value: Copy>(target: Value, salt: u64, mask: u64) -> (r: WordExpr<Value>)
    ensures
        forall|env: spec_fn(Value) -> u64| #[trigger]
            r.eval(env) == lookup_slot(env(target), salt, mask),
{
    let low = WordExpr::ShiftRight { word: Box::new(WordExpr::Value(target)), bits: 2 };
    let middle = mixed_part(target, 16);
    let high = mixed_part(target, 32);
    let ghost parts = (low, middle, high);
    let mixed = WordExpr::Xor(
        Box::new(WordExpr::Xor(Box::new(low), Box::new(middle))),
        Box::new(high),
    );
    let salted = WordExpr::Xor(Box::new(mixed), Box::new(WordExpr::Constant(salt)));
    let r = WordExpr::And(Box::new(salted), Box::new(WordExpr::Constant(mask)));
    proof {
        reveal_with_fuel(WordExpr::eval, 6);
        assert forall|env: spec_fn(Value) -> u64| #[trigger]
            r.eval(env) == lookup_slot(env(target), salt, mask) by {
            let x = env(target);
            assert(parts.1.eval(env) == (x >> 2u8) >> 16u8);
            assert(parts.2.eval(env) == (x >> 2u8) >> 32u8);
            assert(parts.0.eval(env) == x >> 2u8);
        }
    }
    r
}

/// The slot of the lookup table for an address.
pub fn lookup_index(target: u64, salt: u64, mask: u64) -> (r: u64)
    ensures
        r == lookup_slot(target, salt, mask),
{
    let words: u64 = target >> 2;
    (((words ^ (words >> 16)) ^ (words >> 32)) ^ salt) & mask
}

pub open spec fn lookup_slot(target: u64, salt: u64, mask: u64) -> u64 {
    let words = target >> 2;
    (((words ^ (words >> 16)) ^ (words >> 32)) ^ salt) & mask
}

/// The slot lies in the table.
pub proof fn law_lookup_slot_lies_in_table(target: u64, salt: u64, mask: u64)
    ensures
        lookup_slot(target, salt, mask) <= mask,
{
    let words = target >> 2;
    let mixed = ((words ^ (words >> 16)) ^ (words >> 32)) ^ salt;
    assert(mixed & mask <= mask) by (bit_vector);
}

/// How native code stops when a call fails: in the known way where the status is the
/// expected one, and as a failure of its own otherwise.
#[derive(Clone, Copy, Debug, PartialEq, Eq, Structural)]
pub struct FailureExits {
    pub expected: u32,
    pub known: NativeExitReason,
    pub detail: u32,
}

impl FailureExits {
    pub open spec fn taken(self, status: u32) -> (NativeExitReason, u32) {
        if status == self.expected {
            (self.known, self.detail)
        } else {
            (NativeExitReason::Internal, 0)
        }
    }
}

/// How native code stops when a slow call fails.
pub fn slow_failure_exits() -> (r: FailureExits)
    ensures
        forall|status: u32| #[trigger]
            r.taken(status) == if status == 1 {
                (NativeExitReason::DataFault, 0u32)
            } else {
                (NativeExitReason::Internal, 0u32)
            },
{
    FailureExits { expected: 1, known: NativeExitReason::DataFault, detail: 0 }
}

/// The detail of an exit for a trapped floating-point exception.
pub const FP_TRAP_DETAIL: u32 = 0x0600_0000;

/// How native code stops when an exact floating-point call fails, where `trap` is
/// the status of a trapped exception.
pub fn fp_failure_exits(trap: u32) -> (r: FailureExits)
    ensures
        forall|status: u32| #[trigger]
            r.taken(status) == if status == trap {
                (NativeExitReason::Architectural, FP_TRAP_DETAIL)
            } else {
                (NativeExitReason::Internal, 0u32)
            },
{
    FailureExits {
        expected: trap,
        known: NativeExitReason::Architectural,
        detail: FP_TRAP_DETAIL,
    }
}

/// How the flags of a block reach a target inside the region.
#[derive(Clone, Copy, Debug, PartialEq, Eq, Structural)]
pub enum FlagStep {
    /// Packed, into the word that all predecessors share.
    Pack,
    /// As they are, for the only predecessor.
    Hand,
    /// They have been handed on before.
    Keep,
    /// A second predecessor that the analysis did not see.
    Missed,
}

/// The step for a target, given whether its flags merge and whether flags that were
/// handed on before are the same.
pub fn propagate_flags(merges: bool, same: Option<bool>) -> (r: FlagStep)
    ensures
        r == if merges {
            FlagStep::Pack
        } else {
            match same {
                None => FlagStep::Hand,
                Some(true) => FlagStep::Keep,
                Some(false) => FlagStep::Missed,
            }
        },
{
    if merges {
        FlagStep::Pack
    } else {
        match same {
            None => FlagStep::Hand,
            Some(true) => FlagStep::Keep,
            Some(false) => FlagStep::Missed,
        }
    }
}

/// Addresses near zero are spread over the table one by one, and a salt only moves every
/// address by itself: what two addresses differ by does not depend on it.
pub proof fn law_neighbours_have_slots_of_their_own(target: u64, salt: u64, mask: u64)
    ensures
        target < 0x4_0000 ==> lookup_slot(target, 0, mask) == (target / 4) & mask,
        lookup_slot(target, salt, mask) == lookup_slot(target, 0, mask) ^ (salt & mask),
        lookup_slot(target, salt, mask) == lookup_slot((target / 4 * 4) as u64, salt, mask),
{
    assert({
        &&& target < 0x4_0000 ==> (((target >> 2) ^ ((target >> 2) >> 16)) ^ ((target >> 2)
            >> 32) ^ 0) & mask == (target / 4) & mask
        &&& ((((target >> 2) ^ ((target >> 2) >> 16)) ^ ((target >> 2) >> 32)) ^ salt) & mask == ((((
        (target >> 2) ^ ((target >> 2) >> 16)) ^ ((target >> 2) >> 32)) ^ 0) & mask) ^ (salt & mask)
        &&& ((target / 4 * 4) as u64) >> 2 == target >> 2
    }) by (bit_vector);
}

} // verus!
