//! The poll budget that native code counts down.

use vstd::prelude::*;

verus! {

pub const SAMPLE_INTERVAL: i64 = 4096;

/// `armed_span` is what the native counter was armed with: the distance to the
/// nearer of the next sample and the end of the slice.
#[derive(Debug)]
pub struct PollBudget {
    pub sample_remaining: i64,
    pub slice_remaining: i64,
    pub armed_span: i64,
}

#[derive(Clone, Copy, Debug, PartialEq, Eq, Structural)]
pub enum BudgetError {
    InvalidSample,
    ExhaustedSlice,
    InvalidDeadline,
}

#[derive(Clone, Copy, Debug, PartialEq, Eq, Structural)]
pub struct PollOutcome {
    pub sample: bool,
    pub exhausted: bool,
}

pub open spec fn smaller(a: int, b: int) -> int {
    if a <= b {
        a
    } else {
        b
    }
}

/// The distance to the next sample after the balance has become `balance`: an
/// overdue sample is taken, and the phase of the sampling grid is kept.
pub open spec fn next_sample(balance: int) -> int {
    if balance > 0 {
        balance
    } else if balance % 4096 == 0 {
        4096
    } else {
        balance % 4096
    }
}

impl PollBudget {
    /// What native code has spent when the armed counter reads `remaining`.
    pub open spec fn spent(&self, remaining: i64) -> int {
        self.armed_span - remaining
    }

    /// The counter reading is one that an armed span can reach without overflow.
    pub open spec fn valid_deadline(&self, remaining: i64) -> bool {
        &&& 0 <= self.spent(remaining) <= i64::MAX
        &&& self.sample_remaining - self.spent(remaining) >= i64::MIN
        &&& self.slice_remaining - self.spent(remaining) >= i64::MIN
    }

    /// The span is armed up to the nearer balance.
    pub open spec fn armed(&self) -> bool {
        &&& 1 <= self.sample_remaining <= SAMPLE_INTERVAL
        &&& self.armed_span == if self.slice_remaining > 0 {
            smaller(self.sample_remaining as int, self.slice_remaining as int)
        } else {
            0
        }
    }

    pub fn new(sample_remaining: i64, slice_remaining: i64) -> (r: Result<PollBudget, BudgetError>)
        ensures
            match r {
                Ok(budget) => {
                    &&& 1 <= sample_remaining <= SAMPLE_INTERVAL
                    &&& slice_remaining > 0
                    &&& budget.sample_remaining == sample_remaining
                    &&& budget.slice_remaining == slice_remaining
                    &&& budget.armed()
                },
                Err(BudgetError::InvalidSample) => !(1 <= sample_remaining <= SAMPLE_INTERVAL),
                Err(BudgetError::ExhaustedSlice) => 1 <= sample_remaining <= SAMPLE_INTERVAL
                    && slice_remaining <= 0,
                Err(BudgetError::InvalidDeadline) => false,
            },
    {
        if !(1 <= sample_remaining && sample_remaining <= SAMPLE_INTERVAL) {
            return Err(BudgetError::InvalidSample);
        }
        if slice_remaining <= 0 {
            return Err(BudgetError::ExhaustedSlice);
        }
        let armed_span: i64 = if sample_remaining <= slice_remaining {
            sample_remaining
        } else {
            slice_remaining
        };
        Ok(PollBudget { sample_remaining, slice_remaining, armed_span })
    }

    /// Settles the counter at a cold poll or a canonical exit. A negative reading
    /// carries overshoot; forced exits charge both balances too.
    pub fn reconcile(&mut self, remaining: i64, forced: bool) -> (r: Result<
        PollOutcome,
        BudgetError,
    >)
        ensures
            r is Ok <==> old(self).valid_deadline(remaining),
            match r {
                Ok(outcome) => {
                    let spent = old(self).spent(remaining);
                    let balance = old(self).sample_remaining - spent;
                    &&& final(self).slice_remaining == old(self).slice_remaining - spent
                    &&& final(self).sample_remaining == next_sample(balance)
                    &&& final(self).armed_span == if final(self).slice_remaining > 0 {
                        smaller(
                            final(self).sample_remaining as int,
                            final(self).slice_remaining as int,
                        )
                    } else {
                        0
                    }
                    &&& old(self).armed() ==> final(self).armed()
                    &&& outcome.sample == (balance <= 0 && !forced)
                    &&& outcome.exhausted == (final(self).slice_remaining <= 0)
                },
                Err(error) => error == BudgetError::InvalidDeadline && *final(self) == *old(self),
            },
    {
        let spent: i64 = match self.armed_span.checked_sub(remaining) {
            Some(spent) => spent,
            None => return Err(BudgetError::InvalidDeadline),
        };
        if spent < 0 {
            return Err(BudgetError::InvalidDeadline);
        }
        let sample: i64 = match self.sample_remaining.checked_sub(spent) {
            Some(sample) => sample,
            None => return Err(BudgetError::InvalidDeadline),
        };
        let slice: i64 = match self.slice_remaining.checked_sub(spent) {
            Some(slice) => slice,
            None => return Err(BudgetError::InvalidDeadline),
        };
        if sample <= 0 {
            let phase: i64 = match sample.checked_rem_euclid(SAMPLE_INTERVAL) {
                Some(phase) => phase,
                None => 0,
            };
            self.sample_remaining = if phase == 0 {
                SAMPLE_INTERVAL
            } else {
                phase
            };
        } else {
            self.sample_remaining = sample;
        }
        self.slice_remaining = slice;
        self.armed_span = if slice > 0 {
            if self.sample_remaining <= slice {
                self.sample_remaining
            } else {
                slice
            }
        } else {
            0
        };
        Ok(PollOutcome { sample: sample <= 0 && !forced, exhausted: slice <= 0 })
    }
}

/// Samples stay on their grid: the distance to the next one is the balance up to whole
/// intervals, it is positive, and it is no longer than an interval where one was due. So
/// it makes no difference whether time is spent at once or in two parts.
pub proof fn law_samples_keep_their_phase(balance: int, spent: int)
    requires
        balance <= SAMPLE_INTERVAL,
        spent >= 0,
    ensures
        (next_sample(balance) - balance) % 4096 == 0,
        1 <= next_sample(balance) <= SAMPLE_INTERVAL,
        balance > 0 ==> next_sample(balance) == balance,
        next_sample(next_sample(balance) - spent) == next_sample(balance - spent),
{
}

/// An armed span ends with the nearer of the two balances: it passes neither, it reaches one
/// of them, and it is empty only where the slice is used up.
pub proof fn law_spans_end_at_the_nearer_balance(budget: PollBudget)
    requires
        budget.armed(),
    ensures
        budget.slice_remaining > 0 ==> {
            &&& 0 < budget.armed_span
            &&& budget.armed_span <= budget.sample_remaining
            &&& budget.armed_span <= budget.slice_remaining
            &&& budget.armed_span == budget.sample_remaining || budget.armed_span
                == budget.slice_remaining
        },
        budget.slice_remaining <= 0 ==> budget.armed_span == 0,
        budget.sample_remaining <= SAMPLE_INTERVAL,
{
}

} // verus!
