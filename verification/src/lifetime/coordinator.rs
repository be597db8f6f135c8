//! Admission, maintenance requests and the stop that serves them.

use vstd::prelude::*;
use vstd::string::StringExecFns;
use crate::abi::identity::{
    AdmissionEpoch, CheckedCounter, ExecutionEpoch, Identity, IdentityExhausted, MaintenanceSequence,
};

verus! {

#[derive(Clone, Copy, Debug, PartialEq, Eq)]
pub enum Error {
    Exhausted(IdentityExhausted),
    Poisoned,
    Closed,
    Shutdown,
    StalePublication,
    OccupiedDispatch,
    ActiveReader,
    Capacity(&'static str),
    CacheFailed,
    InvalidUnit(&'static str),
    StaleUnit,
    PinnedBaseline,
    MaintenancePending,
    UnsupportedHost(&'static str),
}

impl Error {
    pub open spec fn text(self) -> Seq<char> {
        match self {
            Error::UnsupportedHost(detail) => detail@,
            Error::Exhausted(error) => error.text(),
            Error::Poisoned => "JIT lifetime state poisoned; admission is disabled"@,
            Error::Closed => "JIT admission is closed for maintenance"@,
            Error::Shutdown => "JIT process is shutting down"@,
            Error::StalePublication =>
                "JIT publication has a stale process, admission, slot or reachability identity"@,
            Error::OccupiedDispatch => "cannot retire a dispatch slot with resident entries"@,
            Error::ActiveReader => "JIT reader already protects an invocation"@,
            Error::Capacity(detail) => "JIT capacity: "@ + detail@,
            Error::CacheFailed => "JIT executable cache has failed"@,
            Error::InvalidUnit(detail) => "JIT unit publication: "@ + detail@,
            Error::StaleUnit => "JIT unit handle is stale or belongs to another process"@,
            Error::PinnedBaseline => "LCQ unit is pinned by an active or in-flight HCQ family"@,
            Error::MaintenancePending => "JIT maintenance still has unapplied unit work"@,
        }
    }

    pub fn message(self) -> (r: String)
        ensures
            r@ == self.text(),
    {
        match self {
            Error::UnsupportedHost(detail) => String::from_str(detail),
            Error::Exhausted(error) => error.message(),
            Error::Poisoned => String::from_str(
                "JIT lifetime state poisoned; admission is disabled",
            ),
            Error::Closed => String::from_str("JIT admission is closed for maintenance"),
            Error::Shutdown => String::from_str("JIT process is shutting down"),
            Error::StalePublication => String::from_str(
                "JIT publication has a stale process, admission, slot or reachability identity",
            ),
            Error::OccupiedDispatch => String::from_str(
                "cannot retire a dispatch slot with resident entries",
            ),
            Error::ActiveReader => String::from_str("JIT reader already protects an invocation"),
            Error::Capacity(detail) => String::from_str("JIT capacity: ").concat(detail),
            Error::CacheFailed => String::from_str("JIT executable cache has failed"),
            Error::InvalidUnit(detail) => String::from_str("JIT unit publication: ").concat(detail),
            Error::StaleUnit => String::from_str(
                "JIT unit handle is stale or belongs to another process",
            ),
            Error::PinnedBaseline => String::from_str(
                "LCQ unit is pinned by an active or in-flight HCQ family",
            ),
            Error::MaintenancePending => String::from_str(
                "JIT maintenance still has unapplied unit work",
            ),
        }
    }

    /// What a failure of the executable cache means here.
    pub open spec fn of_cache(error: crate::executable::Error) -> Error {
        match error {
            crate::executable::Error::Closed => Error::Shutdown,
            crate::executable::Error::Capacity(detail) => Error::Capacity(detail),
            _ => Error::CacheFailed,
        }
    }

    pub fn from_cache(error: crate::executable::Error) -> (r: Error)
        ensures
            r == Error::of_cache(error),
    {
        match error {
            crate::executable::Error::Closed => Error::Shutdown,
            crate::executable::Error::Capacity(detail) => Error::Capacity(detail),
            _ => Error::CacheFailed,
        }
    }
}

/// The counter called `name` has run out.
pub open spec fn exhausted(error: Error, name: Seq<char>) -> bool {
    error matches Error::Exhausted(e) && e.0@ == name
}

#[derive(Clone, Copy, Debug, PartialEq, Eq, Structural)]
pub enum Phase {
    Open,
    Closing,
    Closed,
}

#[derive(Clone, Copy, Debug, PartialEq, Eq, Structural)]
pub enum Reason {
    LinkPatch,
    TierCutover,
    Eviction,
    MappingChange,
    Shutdown,
}

impl Reason {
    /// The reason's bit in the control word.
    pub open spec fn bit(self) -> u32 {
        match self {
            Reason::LinkPatch => 1,
            Reason::TierCutover => 2,
            Reason::Eviction => 4,
            Reason::MappingChange => 8,
            Reason::Shutdown => 16,
        }
    }

    pub fn mask(self) -> (r: u32)
        ensures
            r == self.bit(),
    {
        match self {
            Reason::LinkPatch => 1,
            Reason::TierCutover => 2,
            Reason::Eviction => 4,
            Reason::MappingChange => 8,
            Reason::Shutdown => 16,
        }
    }
}

/// At most one sequence number for each reason.
#[derive(Clone, Copy, Debug)]
pub struct Sequences {
    pub link_patch: Option<MaintenanceSequence>,
    pub tier_cutover: Option<MaintenanceSequence>,
    pub eviction: Option<MaintenanceSequence>,
    pub mapping_change: Option<MaintenanceSequence>,
    pub shutdown: Option<MaintenanceSequence>,
}

impl Sequences {
    pub open spec fn at(self, reason: Reason) -> Option<MaintenanceSequence> {
        match reason {
            Reason::LinkPatch => self.link_patch,
            Reason::TierCutover => self.tier_cutover,
            Reason::Eviction => self.eviction,
            Reason::MappingChange => self.mapping_change,
            Reason::Shutdown => self.shutdown,
        }
    }

    pub open spec fn with(self, reason: Reason, sequence: Option<MaintenanceSequence>) -> Sequences {
        match reason {
            Reason::LinkPatch => Sequences { link_patch: sequence, ..self },
            Reason::TierCutover => Sequences { tier_cutover: sequence, ..self },
            Reason::Eviction => Sequences { eviction: sequence, ..self },
            Reason::MappingChange => Sequences { mapping_change: sequence, ..self },
            Reason::Shutdown => Sequences { shutdown: sequence, ..self },
        }
    }

    pub open spec fn none(self) -> bool {
        forall|reason: Reason| #[trigger] self.at(reason) is None
    }

    /// The bits of the reasons that have a sequence number.
    pub open spec fn bits(self) -> u32 {
        ((if self.link_patch is Some { 1int } else { 0 }) + (if self.tier_cutover is Some {
            2int
        } else {
            0
        }) + (if self.eviction is Some { 4int } else { 0 }) + (if self.mapping_change is Some {
            8int
        } else {
            0
        }) + (if self.shutdown is Some { 16int } else { 0 })) as u32
    }

    /// No sequence number is beyond `last`.
    pub open spec fn issued(self, last: u64) -> bool {
        forall|reason: Reason|
            (#[trigger] self.at(reason)) matches Some(sequence) ==> sequence.id() <= last
    }

    pub fn new() -> (r: Sequences)
        ensures
            r.none(),
            r.bits() == 0,
    {
        Sequences {
            link_patch: None,
            tier_cutover: None,
            eviction: None,
            mapping_change: None,
            shutdown: None,
        }
    }

    pub fn get(&self, reason: Reason) -> (r: Option<MaintenanceSequence>)
        ensures
            r == self.at(reason),
    {
        match reason {
            Reason::LinkPatch => self.link_patch,
            Reason::TierCutover => self.tier_cutover,
            Reason::Eviction => self.eviction,
            Reason::MappingChange => self.mapping_change,
            Reason::Shutdown => self.shutdown,
        }
    }

    pub fn set(&mut self, reason: Reason, sequence: Option<MaintenanceSequence>)
        ensures
            *final(self) == old(self).with(reason, sequence),
    {
        match reason {
            Reason::LinkPatch => self.link_patch = sequence,
            Reason::TierCutover => self.tier_cutover = sequence,
            Reason::Eviction => self.eviction = sequence,
            Reason::MappingChange => self.mapping_change = sequence,
            Reason::Shutdown => self.shutdown = sequence,
        }
    }

    pub fn is_empty(&self) -> (r: bool)
        ensures
            r == self.none(),
    {
        let empty = self.link_patch.is_none() && self.tier_cutover.is_none()
            && self.eviction.is_none() && self.mapping_change.is_none() && self.shutdown.is_none();
        proof {
            assert(self.at(Reason::LinkPatch) == self.link_patch);
            assert(self.at(Reason::TierCutover) == self.tier_cutover);
            assert(self.at(Reason::Eviction) == self.eviction);
            assert(self.at(Reason::MappingChange) == self.mapping_change);
            assert(self.at(Reason::Shutdown) == self.shutdown);
        }
        empty
    }

    pub fn mask(&self) -> (r: u32)
        ensures
            r == self.bits(),
    {
        let mut bits: u32 = 0;
        if self.link_patch.is_some() {
            bits = bits + 1;
        }
        if self.tier_cutover.is_some() {
            bits = bits + 2;
        }
        if self.eviction.is_some() {
            bits = bits + 4;
        }
        if self.mapping_change.is_some() {
            bits = bits + 8;
        }
        if self.shutdown.is_some() {
            bits = bits + 16;
        }
        bits
    }

    /// The reasons that have a sequence number, in their order.
    pub fn reasons(&self) -> (r: Vec<Reason>)
        ensures
            forall|reason: Reason| r@.contains(reason) <==> (#[trigger] self.at(reason)) is Some,
            forall|j: int, k: int|
                0 <= j < k < r@.len() ==> (#[trigger] r@[j]).bit() < (#[trigger] r@[k]).bit(),
    {
        let mut r: Vec<Reason> = Vec::new();
        if self.link_patch.is_some() {
            r.push(Reason::LinkPatch);
        }
        let ghost r1 = r@;
        assert(forall|reason: Reason| r1.contains(reason) <==> reason == Reason::LinkPatch
            && self.link_patch is Some) by {
            if self.link_patch is Some {
                assert(r1[0] == Reason::LinkPatch);
            }
        }
        if self.tier_cutover.is_some() {
            r.push(Reason::TierCutover);
        }
        let ghost r2 = r@;
        proof {
            lemma_appended(r1, r2, Reason::TierCutover, self.tier_cutover is Some);
        }
        if self.eviction.is_some() {
            r.push(Reason::Eviction);
        }
        let ghost r3 = r@;
        proof {
            lemma_appended(r2, r3, Reason::Eviction, self.eviction is Some);
        }
        if self.mapping_change.is_some() {
            r.push(Reason::MappingChange);
        }
        let ghost r4 = r@;
        proof {
            lemma_appended(r3, r4, Reason::MappingChange, self.mapping_change is Some);
        }
        if self.shutdown.is_some() {
            r.push(Reason::Shutdown);
        }
        proof {
            lemma_appended(r4, r@, Reason::Shutdown, self.shutdown is Some);
        }
        r
    }
}

proof fn lemma_appended(before: Seq<Reason>, after: Seq<Reason>, last: Reason, added: bool)
    requires
        after == if added {
            before.push(last)
        } else {
            before
        },
    ensures
        forall|reason: Reason| #[trigger]
            after.contains(reason) <==> before.contains(reason) || (added && reason == last),
{
    assert forall|reason: Reason| #[trigger] after.contains(reason) implies before.contains(reason)
        || (added && reason == last) by {
        let k = choose|k: int| 0 <= k < after.len() && after[k] == reason;
        if k < before.len() {
            assert(before[k] == reason);
        }
    }
    assert forall|reason: Reason|
        before.contains(reason) || (added && reason == last) implies #[trigger] after.contains(
        reason,
    ) by {
        if before.contains(reason) {
            let k = choose|k: int| 0 <= k < before.len() && before[k] == reason;
            assert(after[k] == reason);
        } else {
            assert(after[before.len() as int] == reason);
        }
    }
}

/// A request for maintenance.
#[derive(Clone, Copy, Debug)]
pub struct Ticket {
    pub process: u64,
    pub reason: Reason,
    pub sequence: MaintenanceSequence,
}

/// Ownership of the stop that serves the requests.
#[derive(Debug)]
pub struct Transition {
    pub active: bool,
    pub defer_links: bool,
}

/// The requests that one round of work covers.
#[derive(Clone, Copy, Debug)]
pub struct Batch {
    pub sequences: Sequences,
}

impl Batch {
    pub fn reasons(&self) -> (r: Vec<Reason>)
        ensures
            forall|reason: Reason|
                r@.contains(reason) <==> (#[trigger] self.sequences.at(reason)) is Some,
            forall|j: int, k: int|
                0 <= j < k < r@.len() ==> (#[trigger] r@[j]).bit() < (#[trigger] r@[k]).bit(),
    {
        self.sequences.reasons()
    }
}

/// Whether readers may enter, what work is pending, and who serves it.
pub struct Coordinator {
    pub phase: Phase,
    pub admission: AdmissionEpoch,
    pub execution: ExecutionEpoch,
    pub admissions: CheckedCounter<AdmissionEpoch>,
    pub executions: CheckedCounter<ExecutionEpoch>,
    pub sequences: CheckedCounter<MaintenanceSequence>,
    /// The newest request for each reason that is not acknowledged.
    pub pending: Sequences,
    pub completed: Sequences,
    pub transition_owned: bool,
    pub shutdown: bool,
    pub failure: Option<Error>,
    /// The word that native polls read. It notifies; it admits nobody.
    pub control: u32,
}

impl Coordinator {
    pub open spec fn wf(&self) -> bool {
        &&& self.admission.id() <= self.admissions.last()
        &&& self.execution.id() <= self.executions.last()
        &&& self.pending.issued(self.sequences.last())
        &&& self.completed.issued(self.sequences.last())
        &&& self.failure is Some ==> self.phase != Phase::Open
        &&& self.shutdown ==> self.phase != Phase::Open
        &&& self.transition_owned ==> self.phase != Phase::Open
        &&& self.phase == Phase::Open ==> self.control == self.pending.bits()
        &&& self.phase != Phase::Open ==> self.control != 0
    }

    /// The transition belongs to this state's owner.
    pub open spec fn owned_by(&self, transition: Transition) -> bool {
        transition.active ==> self.transition_owned
    }

    /// The epoch to which a caller is admitted, or why it is not.
    pub open spec fn admitted(&self) -> Result<AdmissionEpoch, Error> {
        match self.failure {
            Some(error) => Err(error),
            None => if self.shutdown {
                Err(Error::Shutdown)
            } else if self.phase != Phase::Open {
                Err(Error::Closed)
            } else {
                Ok(self.admission)
            },
        }
    }

    /// The same state after a failure: the first one sticks.
    pub open spec fn failed_with(self, error: Error) -> Coordinator {
        Coordinator {
            failure: match self.failure {
                Some(first) => Some(first),
                None => Some(error),
            },
            phase: if self.phase == Phase::Open {
                Phase::Closing
            } else {
                self.phase
            },
            control: 1,
            ..self
        }
    }

    /// The same state at the epoch of another.
    pub open spec fn at_epoch(self, other: Coordinator) -> Coordinator {
        Coordinator { execution: other.execution, executions: other.executions, ..self }
    }

    pub fn new() -> (r: Coordinator)
        ensures
            r.wf(),
            r.phase == Phase::Open,
            r.admission.id() == 1,
            r.execution.id() == 1,
            r.admissions.last() == 1,
            r.executions.last() == 1,
            r.sequences.last() == 0,
            r.pending.none(),
            r.completed.none(),
            !r.transition_owned,
            !r.shutdown,
            r.failure is None,
            r.control == 0,
    {
        Coordinator {
            phase: Phase::Open,
            admission: Identity::from_nonzero(1),
            execution: Identity::from_nonzero(1),
            admissions: CheckedCounter::resume_after(1),
            executions: CheckedCounter::resume_after(1),
            sequences: CheckedCounter::default(),
            pending: Sequences::new(),
            completed: Sequences::new(),
            transition_owned: false,
            shutdown: false,
            failure: None,
            control: 0,
        }
    }

    /// Disables admission for good.
    pub fn fail(&mut self, error: Error)
        requires
            old(self).wf(),
        ensures
            final(self).wf(),
            *final(self) == old(self).failed_with(error),
    {
        if self.failure.is_none() {
            self.failure = Some(error);
        }
        if self.phase == Phase::Open {
            self.phase = Phase::Closing;
        }
        self.control = 1;
    }

    pub fn healthy(&self) -> (r: Result<(), Error>)
        ensures
            r == match self.failure {
                Some(error) => Err(error),
                None => Ok::<(), Error>(()),
            },
    {
        match self.failure {
            Some(error) => Err(error),
            None => Ok(()),
        }
    }

    pub fn open(&self) -> (r: Result<AdmissionEpoch, Error>)
        ensures
            r == self.admitted(),
    {
        self.healthy()?;
        if self.shutdown {
            return Err(Error::Shutdown);
        }
        if self.phase != Phase::Open {
            return Err(Error::Closed);
        }
        Ok(self.admission)
    }

    /// The state after an epoch was issued and not yet made current.
    pub open spec fn epoch_issued(self, other: Coordinator) -> bool {
        &&& other.executions.last() == self.executions.last() + 1
        &&& other == (Coordinator { executions: other.executions, ..self })
    }

    /// Issues the execution epoch that follows the current one. Running out of
    /// epochs disables admission.
    pub fn next_execution(&mut self) -> (r: Result<ExecutionEpoch, Error>)
        requires
            old(self).wf(),
        ensures
            final(self).wf(),
            r is Ok <==> old(self).executions.last() < u64::MAX,
            match r {
                Ok(epoch) => {
                    &&& epoch.id() == old(self).executions.last() + 1
                    &&& old(self).epoch_issued(*final(self))
                },
                Err(error) => {
                    &&& exhausted(error, "ExecutionEpoch"@)
                    &&& *final(self) == old(self).failed_with(error)
                },
            },
    {
        match self.executions.next_id() {
            Ok(epoch) => Ok(epoch),
            Err(error) => {
                let error = Error::Exhausted(error);
                self.fail(error);
                Err(error)
            },
        }
    }

    /// What a request leaves: admission is closed, and the request is pending.
    pub open spec fn requested(self, other: Coordinator, ticket: Ticket) -> bool {
        &&& ticket.sequence.id() == self.sequences.last() + 1
        &&& other.sequences.last() == self.sequences.last() + 1
        &&& other.pending == self.pending.with(ticket.reason, Some(ticket.sequence))
        &&& other.shutdown == (self.shutdown || ticket.reason == Reason::Shutdown)
        &&& other.control == self.control | ticket.reason.bit()
        &&& if self.phase == Phase::Open {
            &&& other.phase == Phase::Closing
            &&& other.admission.id() == self.admissions.last() + 1
            &&& other.admissions.last() == self.admissions.last() + 1
        } else {
            &&& other.phase == self.phase
            &&& other.admission == self.admission
            &&& other.admissions == self.admissions
        }
        &&& other.execution == self.execution
        &&& other.executions == self.executions
        &&& other.completed == self.completed
        &&& other.transition_owned == self.transition_owned
        &&& other.failure == self.failure
    }

    /// Whether a request runs out of numbers, and of which.
    pub open spec fn request_exhausts(&self) -> Option<Seq<char>> {
        if self.sequences.last() == u64::MAX {
            Some("MaintenanceSequence"@)
        } else if self.phase == Phase::Open && self.admissions.last() == u64::MAX {
            Some("AdmissionEpoch"@)
        } else {
            None
        }
    }

    /// Announces a reason and closes admission.
    pub fn request(&mut self, process: u64, reason: Reason) -> (r: Result<Ticket, Error>)
        requires
            old(self).wf(),
        ensures
            final(self).wf(),
            match r {
                Ok(ticket) => {
                    &&& old(self).failure is None && !old(self).shutdown
                    &&& old(self).request_exhausts() is None
                    &&& ticket.process == process && ticket.reason == reason
                    &&& old(self).requested(*final(self), ticket)
                },
                Err(error) => {
                    if old(self).failure is Some {
                        error == old(self).failure->0 && *final(self) == *old(self)
                    } else if old(self).shutdown {
                        error == Error::Shutdown && *final(self) == *old(self)
                    } else {
                        &&& old(self).request_exhausts() is Some
                        &&& exhausted(error, old(self).request_exhausts()->0)
                        &&& *final(self) == (Coordinator {
                            sequences: final(self).sequences,
                            ..old(self).failed_with(error)
                        })
                    }
                },
            },
    {
        self.healthy()?;
        if self.shutdown {
            return Err(Error::Shutdown);
        }
        let sequence: MaintenanceSequence = match self.sequences.next_id() {
            Ok(sequence) => sequence,
            Err(error) => {
                let error = Error::Exhausted(error);
                self.fail(error);
                return Err(error);
            },
        };
        if self.phase == Phase::Open {
            match self.admissions.next_id() {
                Ok(admission) => {
                    self.admission = admission;
                },
                Err(error) => {
                    let error = Error::Exhausted(error);
                    self.fail(error);
                    return Err(error);
                },
            }
            self.phase = Phase::Closing;
        }
        self.pending.set(reason, Some(sequence));
        if reason == Reason::Shutdown {
            self.shutdown = true;
        }
        let bit: u32 = reason.mask();
        let control: u32 = self.control;
        proof {
            assert(control | bit != 0) by (bit_vector)
                requires
                    bit != 0,
            ;
        }
        self.control = control | bit;
        proof {
            assert forall|other: Reason|
                (#[trigger] self.pending.at(other)) is Some implies self.pending.at(other)->0.id()
                <= self.sequences.last() by {
                if other != reason {
                    assert(self.pending.at(other) == old(self).pending.at(other));
                }
            }
        }
        Ok(Ticket { process, reason, sequence })
    }

    /// There is a stop to own.
    pub open spec fn stop_available(&self) -> bool {
        &&& !self.transition_owned
        &&& !((self.shutdown || self.phase == Phase::Open) && self.pending.none())
    }

    /// Takes ownership of the stop. Requests that were deferred start a stop of
    /// their own.
    pub fn try_transition(&mut self) -> (r: Result<Option<Transition>, Error>)
        requires
            old(self).wf(),
        ensures
            final(self).wf(),
            match r {
                Ok(Some(transition)) => {
                    &&& old(self).failure is None && old(self).stop_available()
                    &&& transition == (Transition { active: true, defer_links: false })
                    &&& final(self).transition_owned
                    &&& if old(self).phase == Phase::Open {
                        &&& final(self).admission.id() == old(self).admissions.last() + 1
                        &&& final(self).admissions.last() == old(self).admissions.last() + 1
                        &&& *final(self) == (Coordinator {
                            admission: final(self).admission,
                            admissions: final(self).admissions,
                            phase: Phase::Closing,
                            transition_owned: true,
                            ..*old(self)
                        })
                    } else {
                        *final(self) == (Coordinator { transition_owned: true, ..*old(self) })
                    }
                },
                Ok(None) => {
                    &&& old(self).failure is None && !old(self).stop_available()
                    &&& *final(self) == *old(self)
                },
                Err(error) => {
                    if old(self).failure is Some {
                        error == old(self).failure->0 && *final(self) == *old(self)
                    } else {
                        &&& old(self).stop_available()
                        &&& old(self).phase == Phase::Open
                        &&& old(self).admissions.last() == u64::MAX
                        &&& exhausted(error, "AdmissionEpoch"@)
                        &&& *final(self) == (Coordinator {
                            admissions: final(self).admissions,
                            ..old(self).failed_with(error)
                        })
                    }
                },
            },
    {
        self.healthy()?;
        if self.transition_owned || (self.shutdown && self.pending.is_empty()) {
            return Ok(None);
        }
        if self.phase == Phase::Open {
            if self.pending.is_empty() {
                return Ok(None);
            }
            match self.admissions.next_id() {
                Ok(admission) => {
                    self.admission = admission;
                },
                Err(error) => {
                    let error = Error::Exhausted(error);
                    self.fail(error);
                    return Err(error);
                },
            }
            self.phase = Phase::Closing;
            proof {
                let reason = choose|reason: Reason| #[trigger] self.pending.at(reason) is Some;
                assert(self.pending.at(reason) is Some);
                assert(self.pending.bits() != 0);
            }
        }
        self.transition_owned = true;
        Ok(Some(Transition { active: true, defer_links: false }))
    }

    /// Closes admission once no reader is inside. False asks the owner to wait
    /// for one to leave.
    pub fn try_close(&mut self, transition: &Transition, idle: bool) -> (r: Result<bool, Error>)
        requires
            old(self).wf(),
            old(self).owned_by(*transition),
        ensures
            final(self).wf(),
            match r {
                Ok(closed) => {
                    &&& transition.active && old(self).failure is None
                    &&& closed == idle
                    &&& *final(self) == if idle {
                        Coordinator { phase: Phase::Closed, ..*old(self) }
                    } else {
                        *old(self)
                    }
                },
                Err(error) => {
                    &&& *final(self) == *old(self)
                    &&& if !transition.active {
                        error == Error::Closed
                    } else {
                        old(self).failure is Some && error == old(self).failure->0
                    }
                },
            },
    {
        if !transition.active {
            return Err(Error::Closed);
        }
        self.healthy()?;
        if idle {
            self.phase = Phase::Closed;
            return Ok(true);
        }
        Ok(false)
    }

    /// Why the owner of a stop may not work on the closed state.
    pub open spec fn closed_fault(&self, transition: Transition) -> Option<Error> {
        match self.failure {
            Some(error) => Some(error),
            None => if !transition.active || self.phase != Phase::Closed {
                Some(Error::Closed)
            } else {
                None
            },
        }
    }

    pub fn require_closed(&self, transition: &Transition) -> (r: Result<(), Error>)
        ensures
            match self.closed_fault(*transition) {
                None => r is Ok,
                Some(error) => r == Err::<(), Error>(error),
            },
    {
        self.healthy()?;
        if !transition.active || self.phase != Phase::Closed {
            return Err(Error::Closed);
        }
        Ok(())
    }

    /// Captures the requests of one round.
    pub fn batch(&self, transition: &Transition) -> (r: Result<Batch, Error>)
        ensures
            match r {
                Ok(batch) => self.closed_fault(*transition) is None && batch.sequences
                    == self.pending,
                Err(error) => if !transition.active {
                    error == Error::Closed
                } else {
                    self.closed_fault(*transition) == Some(error)
                },
            },
    {
        if !transition.active {
            return Err(Error::Closed);
        }
        self.require_closed(transition)?;
        Ok(Batch { sequences: self.pending })
    }

    /// The sequences after a round that covered `batch`.
    pub open spec fn pending_after(&self, batch: Batch, defer_links: bool, reason: Reason) -> Option<
        MaintenanceSequence,
    > {
        if (defer_links && reason == Reason::LinkPatch) || batch.sequences.at(reason) is None
            || batch.sequences.at(reason) != self.pending.at(reason) {
            self.pending.at(reason)
        } else {
            None
        }
    }

    pub open spec fn completed_after(
        &self,
        batch: Batch,
        defer_links: bool,
        reason: Reason,
    ) -> Option<MaintenanceSequence> {
        if (defer_links && reason == Reason::LinkPatch) || batch.sequences.at(reason) is None {
            self.completed.at(reason)
        } else {
            batch.sequences.at(reason)
        }
    }

    fn settle(&mut self, batch: &Batch, reason: Reason)
        ensures
            final(self).pending == old(self).pending.with(
                reason,
                old(self).pending_after(*batch, false, reason),
            ),
            final(self).completed == old(self).completed.with(
                reason,
                old(self).completed_after(*batch, false, reason),
            ),
            *final(self) == (Coordinator {
                pending: final(self).pending,
                completed: final(self).completed,
                ..*old(self)
            }),
    {
        if let Some(sequence) = batch.sequences.get(reason) {
            self.completed.set(reason, Some(sequence));
            if let Some(current) = self.pending.get(reason) {
                proof {
                    MaintenanceSequence::lemma_same(current, sequence);
                }
                if current.get() == sequence.get() {
                    self.pending.set(reason, None);
                }
            }
        }
    }

    /// Acknowledges the requests of a round. A newer request of the same reason
    /// stays pending. Deferred links keep their request.
    pub fn acknowledge(
        &mut self,
        transition: &mut Transition,
        batch: Batch,
        defer_links: bool,
        unapplied: bool,
    ) -> (r: Result<(), Error>)
        requires
            old(self).wf(),
            old(self).owned_by(*old(transition)),
            old(transition).active,
            batch.sequences.issued(old(self).sequences.last()),
        ensures
            final(self).wf(),
            final(transition).active == old(transition).active,
            match r {
                Ok(_) => {
                    &&& old(self).failure is None && !unapplied
                    &&& final(transition).defer_links == (old(transition).defer_links
                        || defer_links)
                    &&& forall|reason: Reason| #[trigger]
                        final(self).pending.at(reason) == old(self).pending_after(
                            batch,
                            defer_links,
                            reason,
                        )
                    &&& forall|reason: Reason| #[trigger]
                        final(self).completed.at(reason) == old(self).completed_after(
                            batch,
                            defer_links,
                            reason,
                        )
                    &&& *final(self) == (Coordinator {
                        pending: final(self).pending,
                        completed: final(self).completed,
                        ..*old(self)
                    })
                },
                Err(error) => {
                    &&& *final(self) == *old(self)
                    &&& *final(transition) == *old(transition)
                    &&& match old(self).failure {
                        Some(failure) => error == failure,
                        None => unapplied && error == Error::MaintenancePending,
                    }
                },
            },
    {
        self.healthy()?;
        if unapplied {
            return Err(Error::MaintenancePending);
        }
        if defer_links {
            transition.defer_links = true;
        } else {
            self.settle(&batch, Reason::LinkPatch);
        }
        self.settle(&batch, Reason::TierCutover);
        self.settle(&batch, Reason::Eviction);
        self.settle(&batch, Reason::MappingChange);
        self.settle(&batch, Reason::Shutdown);
        proof {
            assert forall|reason: Reason| #[trigger]
                self.pending.at(reason) == old(self).pending_after(
                    batch,
                    defer_links,
                    reason,
                ) by {
                match reason {
                    Reason::LinkPatch => {},
                    Reason::TierCutover => {},
                    Reason::Eviction => {},
                    Reason::MappingChange => {},
                    Reason::Shutdown => {},
                }
            }
            assert forall|reason: Reason| #[trigger]
                self.completed.at(reason) == old(self).completed_after(
                    batch,
                    defer_links,
                    reason,
                ) by {
                match reason {
                    Reason::LinkPatch => {},
                    Reason::TierCutover => {},
                    Reason::Eviction => {},
                    Reason::MappingChange => {},
                    Reason::Shutdown => {},
                }
            }
            assert forall|reason: Reason|
                (#[trigger] self.pending.at(reason)) is Some implies self.pending.at(reason)->0.id()
                <= self.sequences.last() by {
                assert(old(self).pending.at(reason) == self.pending.at(reason));
            }
            assert forall|reason: Reason|
                (#[trigger] self.completed.at(reason)) is Some implies self.completed.at(reason)->0.id()
                <= self.sequences.last() by {
                assert(old(self).completed.at(reason) == self.completed.at(reason)
                    || batch.sequences.at(reason) == self.completed.at(reason));
            }
        }
        Ok(())
    }

    /// Work that forbids the end of the stop.
    pub open spec fn blocked(&self, defer_links: bool) -> bool {
        exists|reason: Reason|
            (#[trigger] self.pending.at(reason)) is Some && !(reason == Reason::LinkPatch
                && defer_links && !self.shutdown)
    }

    /// Ends the stop. False means that work must still be drained. After a
    /// shutdown admission stays closed.
    pub fn try_reopen(&mut self, transition: &mut Transition) -> (r: Result<bool, Error>)
        requires
            old(self).wf(),
        ensures
            final(self).wf(),
            final(transition).defer_links == old(transition).defer_links,
            match r {
                Ok(true) => {
                    &&& old(self).closed_fault(*old(transition)) is None
                    &&& !old(self).blocked(old(transition).defer_links)
                    &&& !final(transition).active
                    &&& if old(self).shutdown {
                        *final(self) == (Coordinator { transition_owned: false, ..*old(self) })
                    } else {
                        &&& final(self).admission.id() == old(self).admissions.last() + 1
                        &&& final(self).admissions.last() == old(self).admissions.last() + 1
                        &&& *final(self) == (Coordinator {
                            admission: final(self).admission,
                            admissions: final(self).admissions,
                            phase: Phase::Open,
                            control: old(self).pending.bits(),
                            transition_owned: false,
                            ..*old(self)
                        })
                    }
                },
                Ok(false) => {
                    &&& old(self).closed_fault(*old(transition)) is None
                    &&& old(self).blocked(old(transition).defer_links)
                    &&& *final(self) == *old(self)
                    &&& *final(transition) == *old(transition)
                },
                Err(error) => {
                    &&& *final(transition) == *old(transition)
                    &&& if !old(transition).active {
                        error == Error::Closed && *final(self) == *old(self)
                    } else if old(self).closed_fault(*old(transition)) is Some {
                        old(self).closed_fault(*old(transition)) == Some(error) && *final(self)
                            == *old(self)
                    } else {
                        &&& !old(self).blocked(old(transition).defer_links)
                        &&& !old(self).shutdown && old(self).admissions.last() == u64::MAX
                        &&& exhausted(error, "AdmissionEpoch"@)
                        &&& *final(self) == (Coordinator {
                            admissions: final(self).admissions,
                            ..old(self).failed_with(error)
                        })
                    }
                },
            },
    {
        if !transition.active {
            return Err(Error::Closed);
        }
        self.require_closed(transition)?;
        let links_wait = transition.defer_links && !self.shutdown;
        let blocked = (self.pending.link_patch.is_some() && !links_wait)
            || self.pending.tier_cutover.is_some() || self.pending.eviction.is_some()
            || self.pending.mapping_change.is_some() || self.pending.shutdown.is_some();
        proof {
            if blocked {
                assert(self.pending.at(Reason::LinkPatch) is Some || self.pending.at(
                    Reason::TierCutover,
                ) is Some || self.pending.at(Reason::Eviction) is Some || self.pending.at(
                    Reason::MappingChange,
                ) is Some || self.pending.at(Reason::Shutdown) is Some);
            }
            assert(blocked == self.blocked(transition.defer_links));
        }
        if blocked {
            return Ok(false);
        }
        if !self.shutdown {
            match self.admissions.next_id() {
                Ok(admission) => {
                    self.admission = admission;
                },
                Err(error) => {
                    let error = Error::Exhausted(error);
                    self.fail(error);
                    return Err(error);
                },
            }
            self.phase = Phase::Open;
            self.control = self.pending.mask();
        }
        self.transition_owned = false;
        transition.active = false;
        Ok(true)
    }

    /// Gives the stop up without finishing it. Nothing is acknowledged, and
    /// nothing reopens.
    pub fn abandon(&mut self, transition: Transition)
        requires
            old(self).wf(),
        ensures
            final(self).wf(),
            *final(self) == if transition.active {
                Coordinator { transition_owned: false, ..*old(self) }
            } else {
                *old(self)
            },
    {
        if transition.active {
            self.transition_owned = false;
        }
    }

    /// The request has been served.
    pub open spec fn served(&self, ticket: Ticket) -> bool {
        self.completed.at(ticket.reason) matches Some(sequence) && sequence.id()
            >= ticket.sequence.id()
    }

    pub fn is_complete(&self, ticket: &Ticket) -> (r: Result<bool, Error>)
        ensures
            r == match self.failure {
                Some(error) => Err::<bool, Error>(error),
                None => Ok::<bool, Error>(self.served(*ticket)),
            },
    {
        self.healthy()?;
        match self.completed.get(ticket.reason) {
            Some(sequence) => Ok(sequence.get() >= ticket.sequence.get()),
            None => Ok(false),
        }
    }
}

/// A request that arrives while a round runs is still pending after the round is
/// acknowledged, and its ticket is not served by it.
pub proof fn law_later_requests_survive(
    before: Coordinator,
    requested: Coordinator,
    after: Coordinator,
    batch: Batch,
    ticket: Ticket,
    defer_links: bool,
)
    requires
        before.wf(),
        batch.sequences == before.pending,
        before.requested(requested, ticket),
        forall|reason: Reason| #[trigger]
            after.pending.at(reason) == requested.pending_after(batch, defer_links, reason),
        forall|reason: Reason| #[trigger]
            after.completed.at(reason) == requested.completed_after(batch, defer_links, reason),
    ensures
        after.pending.at(ticket.reason) == Some(ticket.sequence),
        !after.served(ticket),
{
    let reason = ticket.reason;
    assert(requested.pending.at(reason) == Some(ticket.sequence));
    assert(requested.completed.at(reason) == before.completed.at(reason));
    if batch.sequences.at(reason) is Some {
        assert(before.pending.at(reason) == batch.sequences.at(reason));
        assert(batch.sequences.at(reason)->0.id() <= before.sequences.last());
    }
    assert(after.pending.at(reason) == requested.pending_after(batch, defer_links, reason));
    assert(after.completed.at(reason) == requested.completed_after(batch, defer_links, reason));
}

/// A deferred link request keeps its place: it is still pending, its ticket is
/// not served, and the control word still announces it after the stop ends.
pub proof fn law_deferred_links_stay_requested(
    closed: Coordinator,
    settled: Coordinator,
    reopened: Coordinator,
    batch: Batch,
    ticket: Ticket,
)
    requires
        closed.wf(),
        closed.pending.at(Reason::LinkPatch) == Some(ticket.sequence),
        ticket.reason == Reason::LinkPatch,
        !closed.served(ticket),
        forall|reason: Reason| #[trigger]
            settled.pending.at(reason) == closed.pending_after(batch, true, reason),
        forall|reason: Reason| #[trigger]
            settled.completed.at(reason) == closed.completed_after(batch, true, reason),
        reopened.completed == settled.completed,
        reopened.pending == settled.pending,
        reopened.control == settled.pending.bits(),
    ensures
        reopened.pending.at(Reason::LinkPatch) == Some(ticket.sequence),
        !reopened.served(ticket),
        reopened.control % 2 == 1,
{
    assert(settled.pending.at(Reason::LinkPatch) == closed.pending_after(
        batch,
        true,
        Reason::LinkPatch,
    ));
    assert(settled.completed.at(Reason::LinkPatch) == closed.completed_after(
        batch,
        true,
        Reason::LinkPatch,
    ));
    assert(settled.pending.link_patch is Some);
}

/// Polls see a nonzero control word whenever admission is not open.
pub proof fn law_closed_admission_is_announced(coordinator: Coordinator)
    requires
        coordinator.wf(),
    ensures
        coordinator.admitted() is Err ==> coordinator.control != 0,
{
}

/// After a shutdown no admission is ever granted: a stop that ends leaves the
/// state closed.
pub proof fn law_shutdown_is_terminal(coordinator: Coordinator)
    requires
        coordinator.wf(),
        coordinator.shutdown,
    ensures
        coordinator.admitted() is Err,
        coordinator.phase != Phase::Open,
{
}

/// After a failure nobody is admitted and the closing is announced. The first failure is the
/// one that is told, and nothing else is lost.
pub proof fn law_failures_stick(coordinator: Coordinator, first: Error, second: Error)
    ensures
        coordinator.failed_with(first).admitted() is Err,
        coordinator.failed_with(first).phase != Phase::Open,
        coordinator.failed_with(first).control == 1,
        coordinator.failure is None ==> coordinator.failed_with(first).failure == Some(first),
        coordinator.failed_with(first).failed_with(second) == coordinator.failed_with(first),
        coordinator.failed_with(first).pending == coordinator.pending,
        coordinator.failed_with(first).admission == coordinator.admission,
        coordinator.failed_with(first).execution == coordinator.execution,
        coordinator.failed_with(first).transition_owned == coordinator.transition_owned,
        coordinator.failed_with(first).shutdown == coordinator.shutdown,
        coordinator.phase == Phase::Closed ==> coordinator.failed_with(first).phase
            == Phase::Closed,
{
}

/// A caller is admitted, to the present epoch, exactly while nothing failed, nothing is being
/// shut down and admission is open.
pub proof fn law_admission_needs_an_open_process(coordinator: Coordinator, epoch: AdmissionEpoch)
    ensures
        coordinator.admitted() == Ok::<AdmissionEpoch, Error>(epoch) <==> coordinator.failure is None
            && !coordinator.shutdown && coordinator.phase == Phase::Open && epoch
            == coordinator.admission,
        coordinator.failure is Some ==> coordinator.admitted() == Err::<AdmissionEpoch, Error>(
            coordinator.failure->0,
        ),
{
}

/// A stop can end exactly when no work waits, but for links that were put off while the
/// process goes on.
pub proof fn law_stops_end_when_nothing_waits(coordinator: Coordinator, defer_links: bool)
    ensures
        !coordinator.blocked(defer_links) <==> {
            &&& forall|reason: Reason|
                reason != Reason::LinkPatch ==> (#[trigger] coordinator.pending.at(reason)) is None
            &&& coordinator.pending.at(Reason::LinkPatch) is Some ==> defer_links
                && !coordinator.shutdown
        },
{
}

/// The reasons are kept apart: what is noted for one is read back for it, and for it alone,
/// and each is announced by a bit of its own.
pub proof fn law_reasons_are_kept_apart(
    sequences: Sequences,
    reason: Reason,
    other: Reason,
    sequence: Option<MaintenanceSequence>,
)
    ensures
        sequences.with(reason, sequence).at(reason) == sequence,
        other != reason ==> sequences.with(reason, sequence).at(other) == sequences.at(other),
        other != reason ==> reason.bit() != other.bit(),
        sequences.none() <==> forall|any: Reason| (#[trigger] sequences.at(any)) is None,
{
    assert(sequences.at(Reason::LinkPatch) == sequences.link_patch);
    assert(sequences.at(Reason::TierCutover) == sequences.tier_cutover);
    assert(sequences.at(Reason::Eviction) == sequences.eviction);
    assert(sequences.at(Reason::MappingChange) == sequences.mapping_change);
    assert(sequences.at(Reason::Shutdown) == sequences.shutdown);
}

} // verus!
