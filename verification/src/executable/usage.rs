//! The budget that code and its metadata share.

use vstd::prelude::*;
use super::{Error, Tier, HARD_BYTES, LCQ_RESERVE, SOFT_BYTES};

verus! {

#[derive(Clone, Copy, Debug, PartialEq, Eq, Structural)]
pub struct Usage {
    pub committed: usize,
    pub metadata: usize,
}

/// Why a charge that brings the total to `total` is refused.
pub open spec fn limit_fault(total: int, tier: Tier) -> Option<Seq<char>> {
    if total > usize::MAX {
        Some("byte count overflow"@)
    } else if total > HARD_BYTES {
        Some("640 MiB code+metadata hard limit"@)
    } else if tier == Tier::Hcq && total > HARD_BYTES - LCQ_RESERVE {
        Some("32 MiB LCQ reserve is unavailable to HCQ"@)
    } else if tier == Tier::Hcq && total > SOFT_BYTES {
        Some("HCQ requires soft-limit reclamation"@)
    } else {
        None
    }
}

impl Usage {
    pub open spec fn sum(self) -> int {
        self.committed + self.metadata
    }

    pub fn total(self) -> (r: usize)
        requires
            self.sum() <= usize::MAX,
        ensures
            r == self.sum(),
    {
        self.committed + self.metadata
    }

    pub fn needs_reclamation(self) -> (r: bool)
        requires
            self.sum() <= usize::MAX,
        ensures
            r == (self.sum() >= SOFT_BYTES),
    {
        self.total() >= SOFT_BYTES
    }

    /// Whether `bytes` more may be charged for `tier`.
    pub fn check(self, bytes: usize, tier: Tier) -> (r: Result<(), Error>)
        requires
            self.sum() <= usize::MAX,
        ensures
            match limit_fault(self.sum() + bytes, tier) {
                None => r is Ok,
                Some(text) => r matches Err(Error::Capacity(detail)) && detail@ == text,
            },
    {
        let used: usize = self.total();
        if bytes > usize::MAX - used {
            return Err(Error::Capacity("byte count overflow"));
        }
        let total: usize = used + bytes;
        if total > HARD_BYTES {
            return Err(Error::Capacity("640 MiB code+metadata hard limit"));
        }
        if matches!(tier, Tier::Hcq) {
            if total > HARD_BYTES - LCQ_RESERVE {
                return Err(Error::Capacity("32 MiB LCQ reserve is unavailable to HCQ"));
            }
            if total > SOFT_BYTES {
                return Err(Error::Capacity("HCQ requires soft-limit reclamation"));
            }
        }
        Ok(())
    }
}

/// What the high tier may charge never touches the reserve of the low tier: the
/// low tier can still charge the whole reserve afterwards.
pub proof fn law_reserve_stays_with_lcq(usage: Usage, bytes: usize)
    requires
        limit_fault(usage.sum() + bytes, Tier::Hcq) is None,
    ensures
        limit_fault(usage.sum() + bytes + LCQ_RESERVE, Tier::Lcq) is None,
{
}

} // verus!
