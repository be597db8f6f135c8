//! What a dispatch slot publishes.

use vstd::prelude::*;
use super::identity::{CodeUnitId, CodeVersion, FamilyVersion, HcqFamilyId, ReachabilityVersion};

verus! {

/// A machine address or size that is never zero.
#[derive(Clone, Copy, Debug, PartialEq, Eq, PartialOrd, Ord, Hash, Structural)]
pub struct NonZeroUsize {
    value: usize,
}

impl NonZeroUsize {
    #[verifier::type_invariant]
    spec fn nonzero(self) -> bool {
        self.value != 0
    }

    pub closed spec fn number(self) -> usize {
        self.value
    }

    pub fn new(value: usize) -> (r: Option<NonZeroUsize>)
        ensures
            r is None <==> value == 0,
            r matches Some(some) ==> some.number() == value,
    {
        if value == 0 {
            None
        } else {
            Some(NonZeroUsize { value })
        }
    }

    pub fn get(self) -> (r: usize)
        ensures
            r == self.number(),
            r != 0,
    {
        proof {
            use_type_invariant(&self);
        }
        self.value
    }
}

/// The state map index is scoped by the code version, which is never reused.
#[derive(Clone, Copy, Debug, PartialEq, Eq, Hash, Structural)]
pub struct ExitSiteKey {
    pub source: CodeVersion,
    pub state_map: u32,
}

#[derive(Clone, Copy, Debug, PartialEq, Eq, Structural)]
pub struct PublishedEntry {
    pub unit: CodeUnitId,
    pub version: CodeVersion,
    pub canonical: NonZeroUsize,
    pub fast: NonZeroUsize,
}

#[derive(Clone, Copy, Debug, PartialEq, Eq, Structural)]
pub struct HcqEntry {
    pub entry: PublishedEntry,
    pub family: HcqFamilyId,
    pub family_version: FamilyVersion,
}

/// One immutable instance is published, not separate fields. The preferred entry
/// is derived, so it cannot disagree with the resident tiers.
#[derive(Clone, Copy, Debug, PartialEq, Eq, Structural)]
pub struct DispatchPayload {
    reachability: ReachabilityVersion,
    lcq: Option<PublishedEntry>,
    hcq: Option<HcqEntry>,
}

impl DispatchPayload {
    pub closed spec fn reachability_of(self) -> ReachabilityVersion {
        self.reachability
    }

    pub closed spec fn lcq_of(self) -> Option<PublishedEntry> {
        self.lcq
    }

    pub closed spec fn hcq_of(self) -> Option<HcqEntry> {
        self.hcq
    }

    /// The high tier where it is resident, else the low tier.
    pub open spec fn preferred_of(self) -> Option<PublishedEntry> {
        match self.hcq_of() {
            Some(hcq) => Some(hcq.entry),
            None => self.lcq_of(),
        }
    }

    pub fn new(
        reachability: ReachabilityVersion,
        lcq: Option<PublishedEntry>,
        hcq: Option<HcqEntry>,
    ) -> (r: DispatchPayload)
        ensures
            r.reachability_of() == reachability,
            r.lcq_of() == lcq,
            r.hcq_of() == hcq,
    {
        DispatchPayload { reachability, lcq, hcq }
    }

    pub fn reachability(&self) -> (r: ReachabilityVersion)
        ensures
            r == self.reachability_of(),
    {
        self.reachability
    }

    pub fn lcq(&self) -> (r: Option<PublishedEntry>)
        ensures
            r == self.lcq_of(),
    {
        self.lcq
    }

    pub fn hcq(&self) -> (r: Option<HcqEntry>)
        ensures
            r == self.hcq_of(),
    {
        self.hcq
    }

    pub fn preferred(&self) -> (r: Option<PublishedEntry>)
        ensures
            r == self.preferred_of(),
    {
        match self.hcq {
            Some(hcq) => Some(hcq.entry),
            None => self.lcq,
        }
    }

    /// A payload is its three parts.
    pub proof fn lemma_parts(a: DispatchPayload, b: DispatchPayload)
        ensures
            (a == b) == (a.reachability_of() == b.reachability_of() && a.lcq_of() == b.lcq_of()
                && a.hcq_of() == b.hcq_of()),
    {
    }
}

} // verus!
