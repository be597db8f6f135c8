//! Rounds of native execution, as a machine that the host drives.
//!
//! Each step names the outside work that comes next, and takes its outcome.

use vstd::prelude::*;
use super::error::{DirectJitError, DirectJitErrorKind};
use super::exit::{DirectExit, ExitWords};
use super::run::{
    check_lease, check_run, choose_entry, run_fault, BoundMemory, DirectView, EntryPoint,
    MemoryBackend,
};

verus! {

/// What a round waits for.
#[derive(Clone, Copy, Debug, PartialEq, Eq, Structural)]
pub enum RoundState {
    /// The guest is outside native code.
    Start,
    /// The entry at the address is found or compiled.
    Finding { pc: u64 },
    /// Memory is asked for a lease of its mapping.
    Leasing { pc: u64 },
    /// The entry is looked up again under the lease.
    Checking { pc: u64 },
    /// Native code runs.
    Running,
    /// Changes of memory are taken in.
    Reconciling,
    /// The rounds are over.
    Over,
}

/// The outside work that comes next.
pub enum RoundAction<F> {
    FindEntry { pc: u64 },
    AcquireLease,
    FindPublished { pc: u64 },
    Invoke { entry: EntryPoint },
    Reconcile,
    /// A new round, from where the guest stands.
    StartOver,
    Return { exit: DirectExit<F> },
    Fail { error: DirectJitError },
}

/// Rounds over one binding of memory.
#[derive(Clone, Copy, Debug, PartialEq, Eq, Structural)]
pub struct Rounds {
    pub bound: BoundMemory,
    pub loader_return: u64,
    pub state: RoundState,
    /// A lease of the mapping is held. The host gives it back when this is cleared.
    pub leased: bool,
}

impl Rounds {
    /// A lease is held exactly while an entry of directly mapped memory is checked
    /// or runs.
    pub open spec fn wf(self) -> bool {
        self.leased == (self.bound.backend == MemoryBackend::LinuxDirect && (self.state is Checking
            || self.state is Running))
    }

    /// The rounds in another state.
    pub open spec fn at(self, state: RoundState) -> Rounds {
        Rounds {
            state,
            leased: self.bound.backend == MemoryBackend::LinuxDirect && (state is Checking
                || state is Running),
            ..self
        }
    }

    fn enter(&mut self, state: RoundState)
        requires
            old(self).wf(),
        ensures
            *final(self) == old(self).at(state),
            final(self).wf(),
    {
        self.state = state;
        self.leased = self.bound.backend == MemoryBackend::LinuxDirect && matches!(
            state,
            RoundState::Checking { .. } | RoundState::Running
        );
    }

    /// Starts rounds over memory that is still the one that was bound.
    pub fn begin(
        bound: BoundMemory,
        backend: MemoryBackend,
        direct: Option<DirectView>,
        has_fault_context: bool,
        loader_return: u64,
    ) -> (r: Result<Rounds, DirectJitError>)
        ensures
            match run_fault(bound, backend, direct, has_fault_context) {
                None => r == Ok::<Rounds, DirectJitError>(
                    Rounds { bound, loader_return, state: RoundState::Start, leased: false },
                ),
                Some((kind, text)) => r matches Err(error) && error.is(kind, text),
            },
            r matches Ok(rounds) ==> rounds.wf(),
    {
        if let Err(error) = check_run(&bound, backend, direct, has_fault_context) {
            return Err(error);
        }
        Ok(Rounds { bound, loader_return, state: RoundState::Start, leased: false })
    }

    /// A round starts where the guest stands, unless it has returned to its loader.
    pub fn start<F>(&mut self, pc: u64, result_register: u64) -> (r: RoundAction<F>)
        requires
            old(self).wf(),
            old(self).state is Start,
        ensures
            final(self).wf(),
            if pc == old(self).loader_return {
                &&& r == RoundAction::Return {
                    exit: DirectExit::<F>::LoaderReturn {
                        pc,
                        result_code: result_register,
                        progress: 0,
                    },
                }
                &&& *final(self) == old(self).at(RoundState::Over)
            } else {
                &&& r == RoundAction::<F>::FindEntry { pc }
                &&& *final(self) == old(self).at(RoundState::Finding { pc })
            },
    {
        if pc == self.loader_return {
            self.enter(RoundState::Over);
            return RoundAction::Return {
                exit: DirectExit::LoaderReturn { pc, result_code: result_register, progress: 0 },
            };
        }
        self.enter(RoundState::Finding { pc });
        RoundAction::FindEntry { pc }
    }

    /// The entry was found or compiled. Code over directly mapped memory needs a
    /// lease before it runs.
    pub fn found<F>(&mut self, entry: Result<EntryPoint, DirectJitError>) -> (r: RoundAction<F>)
        requires
            old(self).wf(),
            old(self).state is Finding,
        ensures
            final(self).wf(),
            match entry {
                Err(error) => {
                    &&& r == RoundAction::<F>::Fail { error }
                    &&& *final(self) == old(self).at(RoundState::Over)
                },
                Ok(entry) => match old(self).bound.backend {
                    MemoryBackend::Checked => {
                        &&& r == RoundAction::<F>::Invoke { entry }
                        &&& *final(self) == old(self).at(RoundState::Running)
                    },
                    MemoryBackend::LinuxDirect => {
                        &&& r == RoundAction::<F>::AcquireLease
                        &&& *final(self) == old(self).at(
                            RoundState::Leasing { pc: old(self).state->Finding_pc },
                        )
                    },
                },
            },
    {
        let entry = match entry {
            Ok(entry) => entry,
            Err(error) => {
                self.enter(RoundState::Over);
                return RoundAction::Fail { error };
            },
        };
        let bound = self.bound;
        if let Some(entry) = choose_entry(&bound, entry, None) {
            self.enter(RoundState::Running);
            return RoundAction::Invoke { entry };
        }
        if let RoundState::Finding { pc } = self.state {
            self.enter(RoundState::Leasing { pc });
        }
        RoundAction::AcquireLease
    }

    /// Memory answered the request for a lease: whether it granted one, and whether
    /// that is a lease of this memory.
    pub fn granted<F>(&mut self, lease: Option<bool>) -> (r: RoundAction<F>)
        requires
            old(self).wf(),
            old(self).state is Leasing,
            old(self).bound.backend == MemoryBackend::LinuxDirect,
        ensures
            final(self).wf(),
            if lease == Some(true) {
                let pc = old(self).state->Leasing_pc;
                &&& r == RoundAction::<F>::FindPublished { pc }
                &&& *final(self) == old(self).at(RoundState::Checking { pc })
            } else {
                &&& r matches RoundAction::Fail { error } && error.is(
                    DirectJitErrorKind::InvalidGuestCode,
                    if lease is None {
                        "LinuxDirect memory cannot acquire its native execution lease"@
                    } else {
                        "LinuxDirect memory acquired a lease from another owner"@
                    },
                )
                &&& *final(self) == old(self).at(RoundState::Over)
            },
    {
        let bound = self.bound;
        if let Err(error) = check_lease(&bound, lease) {
            self.enter(RoundState::Over);
            return RoundAction::Fail { error };
        }
        match self.state {
            RoundState::Leasing { pc } => {
                self.enter(RoundState::Checking { pc });
                RoundAction::FindPublished { pc }
            },
            _ => RoundAction::StartOver,
        }
    }

    /// The entry was looked up again under the lease. Where it is gone, the lease
    /// is given back and the round starts over.
    pub fn checked<F>(&mut self, published: Result<Option<EntryPoint>, DirectJitError>) -> (r:
        RoundAction<F>)
        requires
            old(self).wf(),
            old(self).state is Checking,
        ensures
            final(self).wf(),
            match published {
                Err(error) => {
                    &&& r == RoundAction::<F>::Fail { error }
                    &&& *final(self) == old(self).at(RoundState::Over)
                },
                Ok(None) => {
                    &&& r == RoundAction::<F>::StartOver
                    &&& *final(self) == old(self).at(RoundState::Start)
                },
                Ok(Some(entry)) => {
                    &&& r == RoundAction::<F>::Invoke { entry }
                    &&& *final(self) == old(self).at(RoundState::Running)
                },
            },
    {
        match published {
            Err(error) => {
                self.enter(RoundState::Over);
                RoundAction::Fail { error }
            },
            Ok(None) => {
                self.enter(RoundState::Start);
                RoundAction::StartOver
            },
            Ok(Some(entry)) => {
                self.enter(RoundState::Running);
                RoundAction::Invoke { entry }
            },
        }
    }

    /// Native code came back, or could not be run. What it asks to be reconciled is
    /// reconciled here; every other exit ends the rounds.
    pub fn exited<F>(&mut self, words: Result<ExitWords<F>, DirectJitError>) -> (r: RoundAction<F>)
        requires
            old(self).wf(),
            old(self).state is Running,
        ensures
            final(self).wf(),
            match words {
                Err(error) => {
                    &&& r == RoundAction::<F>::Fail { error }
                    &&& *final(self) == old(self).at(RoundState::Over)
                },
                Ok(words) => match words.decoded() {
                    None => {
                        &&& r matches RoundAction::Fail { error } && error.is(
                            DirectJitErrorKind::Internal,
                            words.failure(),
                        )
                        &&& *final(self) == old(self).at(RoundState::Over)
                    },
                    Some(DirectExit::Reconcile) => {
                        &&& r == RoundAction::<F>::Reconcile
                        &&& *final(self) == old(self).at(RoundState::Reconciling)
                    },
                    Some(exit) => {
                        &&& r == RoundAction::Return { exit }
                        &&& *final(self) == old(self).at(RoundState::Over)
                    },
                },
            },
    {
        let words = match words {
            Ok(words) => words,
            Err(error) => {
                self.enter(RoundState::Over);
                return RoundAction::Fail { error };
            },
        };
        match words.exit() {
            Err(error) => {
                self.enter(RoundState::Over);
                RoundAction::Fail { error }
            },
            Ok(DirectExit::Reconcile) => {
                self.enter(RoundState::Reconciling);
                RoundAction::Reconcile
            },
            Ok(exit) => {
                self.enter(RoundState::Over);
                RoundAction::Return { exit }
            },
        }
    }

    /// Changes of memory were taken in; the next round starts.
    pub fn reconciled<F>(&mut self) -> (r: RoundAction<F>)
        requires
            old(self).wf(),
            old(self).state is Reconciling,
        ensures
            final(self).wf(),
            r == RoundAction::<F>::StartOver,
            *final(self) == old(self).at(RoundState::Start),
    {
        self.enter(RoundState::Start);
        RoundAction::StartOver
    }
}

/// Native code over directly mapped memory runs only under a lease, and no lease
/// outlives its round.
pub proof fn law_direct_code_runs_under_a_lease(rounds: Rounds)
    requires
        rounds.wf(),
    ensures
        rounds.bound.backend == MemoryBackend::LinuxDirect && rounds.state is Running
            ==> rounds.leased,
        rounds.state is Start || rounds.state is Reconciling || rounds.state is Over
            ==> !rounds.leased,
        rounds.bound.backend == MemoryBackend::Checked ==> !rounds.leased,
{
}

} // verus!
