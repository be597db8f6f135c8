//! The compilation of a region, as a machine that the host drives.
//!
//! The host reads guest code and runs the code generator without the lock of the
//! process. Before the result is published the process is looked at again, under
//! its lock.

use vstd::prelude::*;
use super::error::{DirectJitError, DirectJitErrorKind};
use super::invalidation::{InvalidationSummary, PublishedRegion, Regions};
use super::publication::{
    account_native_bytes, arena_text, decide_hcq, decide_lcq, hcq_step, lcq_step, EntryNode,
    PublishStep,
};
use super::run::EntryPoint;
use super::scheduler::HcqRequest;

verus! {

/// The compiled code of a process.
pub struct CodeState {
    pub regions: Regions,
    pub native_bytes: usize,
    pub limit: usize,
}

/// Why new code is refused.
pub open spec fn arena_fault(used: int, added: int, limit: int) -> Option<Seq<char>> {
    if used + added > usize::MAX {
        Some("direct JIT code size overflows"@)
    } else if used + added > limit {
        Some(arena_text(used + added, limit))
    } else {
        None
    }
}

impl CodeState {
    pub fn new(limit: usize) -> (r: CodeState)
        ensures
            r.regions.wf(),
            r.regions.noted(),
            r.regions.live@.len() == 0,
            r.regions.retired@.len() == 0,
            r.regions.dependents@.len() == 0,
            r.regions.cursor == 0,
            r.native_bytes == 0,
            r.limit == limit,
    {
        CodeState {
            regions: Regions {
                live: Vec::new(),
                retired: Vec::new(),
                dependents: Vec::new(),
                cursor: 0,
            },
            native_bytes: 0,
            limit,
        }
    }

    /// Counts new code. Code over the limit stays counted.
    pub fn count(&mut self, bytes: usize) -> (r: Result<(), DirectJitError>)
        ensures
            *final(self) == (CodeState { native_bytes: final(self).native_bytes, ..*old(self) }),
            final(self).native_bytes == if old(self).native_bytes + bytes > usize::MAX {
                old(self).native_bytes as int
            } else {
                old(self).native_bytes + bytes
            },
            match arena_fault(old(self).native_bytes as int, bytes as int, old(self).limit as int) {
                Some(text) => r matches Err(error) && error.is(DirectJitErrorKind::Capacity, text),
                None => r is Ok,
            },
    {
        let (used, outcome) = account_native_bytes(self.native_bytes, bytes, self.limit);
        self.native_bytes = used;
        outcome
    }
}

/// Which translation is built.
#[derive(Clone, Copy, Debug, PartialEq, Eq, Structural)]
pub enum BuildKind {
    /// The first one. The node belongs to this build under the generation.
    Lcq { generation: u64 },
    /// A better one, which was asked for.
    Hcq { request: HcqRequest },
}

/// What a build waits for.
#[derive(Clone, Copy, Debug, PartialEq, Eq, Structural)]
pub enum BuildState {
    Discovering,
    Compiling,
    Settling,
    PublishingFaults,
    Publishing,
    Over,
}

/// The outside work that comes next.
pub enum BuildAction {
    /// Read the guest code of the region.
    Discover,
    /// Run the code generator.
    Compile,
    /// Take the lock, count the code and look at the process again.
    Settle,
    /// Make the accesses of the code known to the handler of host faults.
    PublishFaults,
    /// Register the region and its entry.
    Publish,
    /// The node goes back to the translation it has, and may ask again.
    RestoreLcq,
    /// The entry can be run.
    Enter { entry: EntryPoint },
    /// The node has to be looked at again.
    LookAgain,
    /// There is nothing more to do.
    Finish,
    Fail { error: DirectJitError },
}

/// A build of one region.
#[derive(Clone, Copy, Debug, PartialEq, Eq, Structural)]
pub struct Build {
    pub kind: BuildKind,
    /// The changes of memory that the guest code was read after.
    pub cursor: u64,
    pub state: BuildState,
}

/// The decision about code that was built.
pub open spec fn build_step(kind: BuildKind, node: EntryNode, pending: bool, changed: bool) -> PublishStep {
    match kind {
        BuildKind::Lcq { generation } => lcq_step(node, generation, pending, changed),
        BuildKind::Hcq { request } => hcq_step(node, request.generation, pending, changed),
    }
}

impl Build {
    pub open spec fn at(self, state: BuildState) -> Build {
        Build { state, ..self }
    }

    /// Starts the first translation of a node that this thread has claimed.
    pub fn first(generation: u64, cursor: u64) -> (r: (Build, BuildAction))
        ensures
            r.0 == (Build {
                kind: BuildKind::Lcq { generation },
                cursor,
                state: BuildState::Discovering,
            }),
            r.1 == BuildAction::Discover,
    {
        (
            Build {
                kind: BuildKind::Lcq { generation },
                cursor,
                state: BuildState::Discovering,
            },
            BuildAction::Discover,
        )
    }

    /// Starts a better translation, where the node still waits for it.
    pub fn better(request: HcqRequest, node: EntryNode) -> (r: (Build, BuildAction))
        ensures
            r.0 == (Build {
                kind: BuildKind::Hcq { request },
                cursor: request.invalidation_cursor,
                state: if node.awaits_hcq(request.generation) {
                    BuildState::Discovering
                } else {
                    BuildState::Over
                },
            }),
            r.1 == if node.awaits_hcq(request.generation) {
                BuildAction::Discover
            } else {
                BuildAction::Finish
            },
    {
        let kind = BuildKind::Hcq { request };
        let cursor: u64 = request.invalidation_cursor;
        if node.still_queued(&request) {
            (Build { kind, cursor, state: BuildState::Discovering }, BuildAction::Discover)
        } else {
            (Build { kind, cursor, state: BuildState::Over }, BuildAction::Finish)
        }
    }

    fn fail(&mut self, error: DirectJitError) -> (r: BuildAction)
        ensures
            *final(self) == old(self).at(BuildState::Over),
            r == (BuildAction::Fail { error }),
    {
        self.state = BuildState::Over;
        BuildAction::Fail { error }
    }

    /// The guest code was read. For a better translation a failure counts only where
    /// the node still waits after memory was reconciled: `node` is the node then.
    pub fn discovered(&mut self, outcome: Result<(), DirectJitError>, node: EntryNode) -> (r:
        BuildAction)
        requires
            old(self).state is Discovering,
        ensures
            match outcome {
                Ok(()) => {
                    &&& r == BuildAction::Compile
                    &&& *final(self) == old(self).at(BuildState::Compiling)
                },
                Err(error) => {
                    &&& *final(self) == old(self).at(BuildState::Over)
                    &&& r == match old(self).kind {
                        BuildKind::Hcq { request } if !node.awaits_hcq(request.generation) => {
                            BuildAction::Finish
                        },
                        _ => BuildAction::Fail { error },
                    }
                },
            },
    {
        match outcome {
            Ok(()) => {
                self.state = BuildState::Compiling;
                BuildAction::Compile
            },
            Err(error) => {
                if let BuildKind::Hcq { request } = self.kind {
                    if !node.still_queued(&request) {
                        self.state = BuildState::Over;
                        return BuildAction::Finish;
                    }
                }
                self.fail(error)
            },
        }
    }

    /// The code generator ran.
    pub fn compiled(&mut self, outcome: Result<(), DirectJitError>) -> (r: BuildAction)
        requires
            old(self).state is Compiling,
        ensures
            match outcome {
                Ok(()) => {
                    &&& r == BuildAction::Settle
                    &&& *final(self) == old(self).at(BuildState::Settling)
                },
                Err(error) => {
                    &&& r == (BuildAction::Fail { error })
                    &&& *final(self) == old(self).at(BuildState::Over)
                },
            },
    {
        match outcome {
            Ok(()) => {
                self.state = BuildState::Settling;
                BuildAction::Settle
            },
            Err(error) => self.fail(error),
        }
    }

    /// The code was counted and memory reconciled up to `cursor`. `node` is the node
    /// after that, `changes` is what changed since the guest code was read, and
    /// `pending` whether the process stops.
    pub fn settled(
        &mut self,
        outcome: Result<(), DirectJitError>,
        node: EntryNode,
        pending: bool,
        changes: &InvalidationSummary,
        region: &PublishedRegion,
        cursor: u64,
    ) -> (r: BuildAction)
        requires
            old(self).state is Settling,
        ensures
            match outcome {
                Err(error) => {
                    &&& r == (BuildAction::Fail { error })
                    &&& *final(self) == old(self).at(BuildState::Over)
                },
                Ok(()) => {
                    let first = old(self).kind is Lcq;
                    match build_step(old(self).kind, node, pending, changes.affects(*region)) {
                        PublishStep::Publish => {
                            &&& r == BuildAction::PublishFaults
                            &&& *final(self) == old(self).at(BuildState::PublishingFaults)
                        },
                        PublishStep::Shutdown => {
                            &&& *final(self) == old(self).at(BuildState::Over)
                            &&& if first {
                                r matches BuildAction::Fail { error } && error.is(
                                    DirectJitErrorKind::Shutdown,
                                    "direct JIT process is shut down"@,
                                )
                            } else {
                                r == BuildAction::Finish
                            }
                        },
                        PublishStep::Superseded => {
                            &&& *final(self) == old(self).at(BuildState::Over)
                            &&& r == if first {
                                BuildAction::LookAgain
                            } else {
                                BuildAction::Finish
                            }
                        },
                        PublishStep::OutOfDate => if first {
                            &&& r == BuildAction::Discover
                            &&& *final(self) == (Build {
                                cursor,
                                state: BuildState::Discovering,
                                ..*old(self)
                            })
                        } else {
                            &&& r == BuildAction::RestoreLcq
                            &&& *final(self) == old(self).at(BuildState::Over)
                        },
                    }
                },
            },
    {
        if let Err(error) = outcome {
            return self.fail(error);
        }
        let (first, step) = match self.kind {
            BuildKind::Lcq { generation } => (
                true,
                decide_lcq(node, generation, pending, changes, region),
            ),
            BuildKind::Hcq { request } => (
                false,
                decide_hcq(node, &request, pending, changes, region),
            ),
        };
        match step {
            PublishStep::Publish => {
                self.state = BuildState::PublishingFaults;
                BuildAction::PublishFaults
            },
            PublishStep::Shutdown => {
                self.state = BuildState::Over;
                if first {
                    BuildAction::Fail { error: DirectJitError::shutdown() }
                } else {
                    BuildAction::Finish
                }
            },
            PublishStep::Superseded => {
                self.state = BuildState::Over;
                if first {
                    BuildAction::LookAgain
                } else {
                    BuildAction::Finish
                }
            },
            PublishStep::OutOfDate => {
                if first {
                    self.cursor = cursor;
                    self.state = BuildState::Discovering;
                    BuildAction::Discover
                } else {
                    self.state = BuildState::Over;
                    BuildAction::RestoreLcq
                }
            },
        }
    }

    /// The handler of host faults knows the code, or refused it.
    pub fn faults_published(&mut self, outcome: Result<(), DirectJitError>) -> (r: BuildAction)
        requires
            old(self).state is PublishingFaults,
        ensures
            match outcome {
                Ok(()) => {
                    &&& r == BuildAction::Publish
                    &&& *final(self) == old(self).at(BuildState::Publishing)
                },
                Err(error) => {
                    &&& r == (BuildAction::Fail { error })
                    &&& *final(self) == old(self).at(BuildState::Over)
                },
            },
    {
        match outcome {
            Ok(()) => {
                self.state = BuildState::Publishing;
                BuildAction::Publish
            },
            Err(error) => self.fail(error),
        }
    }

    /// The node took the entry, or had changed hands.
    pub fn published(&mut self, taken: bool, entry: EntryPoint) -> (r: BuildAction)
        requires
            old(self).state is Publishing,
        ensures
            *final(self) == old(self).at(BuildState::Over),
            if old(self).kind is Hcq {
                r == BuildAction::Finish
            } else if taken {
                r == (BuildAction::Enter { entry })
            } else {
                r matches BuildAction::Fail { error } && error.is(
                    DirectJitErrorKind::Internal,
                    "LCQ publication lost canonical entry ownership"@,
                )
            },
    {
        self.state = BuildState::Over;
        match self.kind {
            BuildKind::Hcq { .. } => BuildAction::Finish,
            BuildKind::Lcq { .. } => {
                if taken {
                    BuildAction::Enter { entry }
                } else {
                    BuildAction::Fail {
                        error: DirectJitError::internal(
                            "LCQ publication lost canonical entry ownership",
                        ),
                    }
                }
            },
        }
    }
}

/// What a compiler thread does about a failed build.
pub enum WorkerStep {
    /// No more requests are taken, and those that wait go back to what they have.
    CloseQueue,
    /// The process fails, and the thread ends.
    FailProcess { error: DirectJitError },
}

pub fn worker_step(error: DirectJitError) -> (r: WorkerStep)
    ensures
        if error.kind == DirectJitErrorKind::Capacity {
            r is CloseQueue
        } else {
            r == (WorkerStep::FailProcess { error })
        },
{
    if error.kind == DirectJitErrorKind::Capacity {
        WorkerStep::CloseQueue
    } else {
        WorkerStep::FailProcess { error }
    }
}

/// The first failure of a process sticks.
pub fn first_failure(known: Option<DirectJitError>, error: DirectJitError) -> (r: DirectJitError)
    ensures
        r == match known {
            Some(known) => known,
            None => error,
        },
{
    match known {
        Some(known) => known,
        None => error,
    }
}

/// Code that a change of memory reaches is never published, whatever its tier: the
/// step before publication is taken only where nothing it was read from changed,
/// the process runs on, and the node still belongs to the build.
pub proof fn law_only_current_code_is_published(
    kind: BuildKind,
    node: EntryNode,
    pending: bool,
    changed: bool,
)
    requires
        build_step(kind, node, pending, changed) is Publish,
    ensures
        !changed,
        !pending,
        match kind {
            BuildKind::Lcq { generation } => node.generation == generation,
            BuildKind::Hcq { request } => node.awaits_hcq(request.generation),
        },
{
}

/// New code is refused exactly where it does not fit below the limit.
pub proof fn law_code_fits_the_arena(used: usize, added: usize, limit: usize)
    ensures
        arena_fault(used as int, added as int, limit as int) is None <==> used + added <= limit,
{
}

} // verus!
