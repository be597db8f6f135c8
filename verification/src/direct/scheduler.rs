//! Requests for optimized code, newest first.

use vstd::prelude::*;

verus! {

pub const HCQ_PENDING_PER_WORKER: usize = 64;

/// A third of the processors beyond the first six, between one and four.
pub open spec fn worker_count(logical_processors: int) -> int {
    let spare = (if logical_processors >= 6 {
        logical_processors - 6
    } else {
        0
    }) / 3;
    if spare < 1 {
        1
    } else if spare > 4 {
        4
    } else {
        spare
    }
}

pub fn hcq_worker_count(logical_processors: usize) -> (r: usize)
    ensures
        r == worker_count(logical_processors as int),
        1 <= r <= 4,
{
    let workers: usize = logical_processors.saturating_sub(6) / 3;
    if workers < 1 {
        1
    } else if workers > 4 {
        4
    } else {
        workers
    }
}

/// The guest code that a region starts with.
#[derive(Clone, Copy, Debug, PartialEq, Eq, Hash, Structural)]
pub struct RegionKey {
    pub address_space: u64,
    pub start: u64,
    pub profile: u32,
}

impl RegionKey {
    /// The region of the same process at another address.
    pub fn at(self, start: u64) -> (r: RegionKey)
        ensures
            r == (RegionKey { start, ..self }),
    {
        RegionKey { start, ..self }
    }
}

/// A request to optimize the region that had this generation.
#[derive(Clone, Copy, Debug, PartialEq, Eq, Structural)]
pub struct HcqRequest {
    pub key: RegionKey,
    pub generation: u64,
    pub invalidation_cursor: u64,
}

/// What a worker that asks for a request is told.
#[derive(Clone, Copy, Debug, PartialEq, Eq, Structural)]
pub enum NextRequest {
    Stop,
    Compile(HcqRequest),
    Wait,
}

/// A bounded stack of requests. A closed scheduler takes none and gives none.
pub struct HcqScheduler {
    pub pending: Vec<HcqRequest>,
    pub capacity: usize,
    pub shutdown: bool,
    pub closed: bool,
}

impl HcqScheduler {
    /// No more is pending than there is room for.
    pub open spec fn wf(&self) -> bool {
        self.pending@.len() <= self.capacity
    }

    pub open spec fn stopped(&self) -> bool {
        self.shutdown || self.closed
    }

    pub fn new() -> (r: HcqScheduler)
        ensures
            r.wf(),
            r.pending@.len() == 0,
            r.capacity == 0,
            !r.stopped(),
    {
        HcqScheduler { pending: Vec::new(), capacity: 0, shutdown: false, closed: false }
    }

    pub fn configure(&mut self, workers: usize)
        requires
            workers * HCQ_PENDING_PER_WORKER <= usize::MAX,
        ensures
            *final(self) == (HcqScheduler {
                capacity: (workers * HCQ_PENDING_PER_WORKER) as usize,
                ..*old(self)
            }),
    {
        self.capacity = HCQ_PENDING_PER_WORKER * workers;
    }

    /// Takes a request unless the scheduler is stopped or full.
    pub fn push(&mut self, request: HcqRequest) -> (r: bool)
        ensures
            old(self).wf() ==> final(self).wf(),
            r == (!old(self).stopped() && old(self).pending@.len() != old(self).capacity),
            final(self).pending@ == if r {
                old(self).pending@.push(request)
            } else {
                old(self).pending@
            },
            final(self).capacity == old(self).capacity,
            final(self).shutdown == old(self).shutdown,
            final(self).closed == old(self).closed,
    {
        if self.closed || self.shutdown || self.pending.len() == self.capacity {
            return false;
        }
        self.pending.push(request);
        true
    }

    /// Gives the newest request.
    pub fn pop(&mut self) -> (r: NextRequest)
        ensures
            old(self).wf() ==> final(self).wf(),
            final(self).capacity == old(self).capacity,
            final(self).shutdown == old(self).shutdown,
            final(self).closed == old(self).closed,
            if old(self).stopped() {
                r == NextRequest::Stop && final(self).pending == old(self).pending
            } else if old(self).pending@.len() == 0 {
                r == NextRequest::Wait && final(self).pending@ == old(self).pending@
            } else {
                &&& r == NextRequest::Compile(old(self).pending@.last())
                &&& final(self).pending@ == old(self).pending@.drop_last()
            },
    {
        if self.shutdown || self.closed {
            return NextRequest::Stop;
        }
        match self.pending.pop() {
            Some(request) => NextRequest::Compile(request),
            None => NextRequest::Wait,
        }
    }

    /// Closes the scheduler and hands back what is pending.
    pub fn close(&mut self) -> (r: Vec<HcqRequest>)
        ensures
            old(self).wf() ==> final(self).wf(),
            final(self).closed,
            final(self).pending@.len() == 0,
            r == old(self).pending,
            final(self).capacity == old(self).capacity,
            final(self).shutdown == old(self).shutdown,
    {
        self.closed = true;
        let mut pending: Vec<HcqRequest> = Vec::new();
        core::mem::swap(&mut self.pending, &mut pending);
        pending
    }

    pub fn shut_down(&mut self)
        ensures
            old(self).wf() ==> final(self).wf(),
            final(self).shutdown,
            final(self).pending@.len() == 0,
            final(self).capacity == old(self).capacity,
            final(self).closed == old(self).closed,
    {
        self.shutdown = true;
        self.pending.clear();
    }
}

/// What to do about a region that asked to be optimized.
#[derive(Clone, Copy, Debug, PartialEq, Eq, Structural)]
pub enum PromotionStep {
    /// It is never asked again.
    DisablePromotion,
    /// It is optimized already, or not published.
    Ignore,
    Queued,
    /// It runs on, and may ask again.
    RestoreLcq,
}

/// Serves a region's request. `queued` is the generation under which the region
/// was marked, where it could be.
pub fn request_hcq(
    scheduler: &mut HcqScheduler,
    key: RegionKey,
    queued: Option<u64>,
    invalidation_cursor: u64,
) -> (r: PromotionStep)
    ensures
        old(scheduler).wf() ==> final(scheduler).wf(),
        *final(scheduler) == (HcqScheduler {
            pending: final(scheduler).pending,
            ..*old(scheduler)
        }),
        r == if old(scheduler).closed {
            PromotionStep::DisablePromotion
        } else if queued is None {
            PromotionStep::Ignore
        } else if old(scheduler).shutdown || old(scheduler).pending@.len() == old(
            scheduler,
        ).capacity {
            PromotionStep::RestoreLcq
        } else {
            PromotionStep::Queued
        },
        final(scheduler).pending@ == if r == PromotionStep::Queued {
            old(scheduler).pending@.push(
                HcqRequest { key, generation: queued->0, invalidation_cursor },
            )
        } else {
            old(scheduler).pending@
        },
{
    if scheduler.closed {
        return PromotionStep::DisablePromotion;
    }
    let generation: u64 = match queued {
        Some(generation) => generation,
        None => {
            return PromotionStep::Ignore;
        },
    };
    if scheduler.push(HcqRequest { key, generation, invalidation_cursor }) {
        PromotionStep::Queued
    } else {
        PromotionStep::RestoreLcq
    }
}

/// The newest request is served first, and none is lost or served twice.
pub proof fn law_newest_request_first(before: HcqScheduler, pushed: Seq<HcqRequest>, request: HcqRequest)
    requires
        pushed == before.pending@.push(request),
    ensures
        pushed.last() == request,
        pushed.drop_last() == before.pending@,
{
    assert(pushed.drop_last() =~= before.pending@);
}

/// More processors never mean fewer workers, and up to the limit every worker beyond the
/// first has three processors of its own beside the six that are left alone.
pub proof fn law_workers_leave_processors(fewer: int, more: int)
    requires
        0 <= fewer <= more,
    ensures
        1 <= worker_count(fewer) <= worker_count(more) <= 4,
        worker_count(fewer) > 1 ==> 3 * worker_count(fewer) + 6 <= fewer,
        worker_count(fewer) < 4 ==> fewer < 3 * worker_count(fewer) + 9,
{
}

} // verus!
