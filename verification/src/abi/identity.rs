//! Identities that are never zero and never reused.

use std::marker::PhantomData;
use vstd::prelude::*;
use vstd::string::StringExecFns;

verus! {

/// An identity is a nonzero number. Allocation is serialized by the owner of the
/// counter; on exhaustion the owner stops allocating.
pub trait Identity: Copy + Sized {
    spec fn raw(self) -> u64;

    spec fn kind_name() -> Seq<char>;

    fn name() -> (r: &'static str)
        ensures
            r@ == Self::kind_name(),
    ;

    fn from_nonzero(value: u64) -> (r: Self)
        requires
            value != 0,
        ensures
            r.raw() == value,
    ;
}

#[derive(Clone, Copy, Debug, PartialEq, Eq, PartialOrd, Ord, Hash, Structural)]
pub struct CodeUnitId {
    value: u64,
}

impl CodeUnitId {
    #[verifier::type_invariant]
    spec fn nonzero(self) -> bool {
        self.value != 0
    }

    pub closed spec fn id(self) -> u64 {
        self.value
    }

    pub fn new(value: u64) -> (r: Option<CodeUnitId>)
        ensures
            r is None <==> value == 0,
            r matches Some(identity) ==> identity.id() == value,
    {
        if value == 0 {
            None
        } else {
            Some(CodeUnitId { value })
        }
    }

    pub fn get(self) -> (r: u64)
        ensures
            r == self.id(),
            r != 0,
    {
        proof {
            use_type_invariant(&self);
        }
        self.value
    }

    /// Identities with one number are one identity.
    pub proof fn lemma_same(a: CodeUnitId, b: CodeUnitId)
        ensures
            (a.id() == b.id()) == (a == b),
    {
    }
}

impl Identity for CodeUnitId {
    open spec fn raw(self) -> u64 {
        self.id()
    }

    open spec fn kind_name() -> Seq<char> {
        "CodeUnitId"@
    }

    fn name() -> (r: &'static str) {
        "CodeUnitId"
    }

    fn from_nonzero(value: u64) -> (r: CodeUnitId) {
        CodeUnitId { value }
    }
}

#[derive(Clone, Copy, Debug, PartialEq, Eq, PartialOrd, Ord, Hash, Structural)]
pub struct CodeVersion {
    value: u64,
}

impl CodeVersion {
    #[verifier::type_invariant]
    spec fn nonzero(self) -> bool {
        self.value != 0
    }

    pub closed spec fn id(self) -> u64 {
        self.value
    }

    pub fn new(value: u64) -> (r: Option<CodeVersion>)
        ensures
            r is None <==> value == 0,
            r matches Some(identity) ==> identity.id() == value,
    {
        if value == 0 {
            None
        } else {
            Some(CodeVersion { value })
        }
    }

    pub fn get(self) -> (r: u64)
        ensures
            r == self.id(),
            r != 0,
    {
        proof {
            use_type_invariant(&self);
        }
        self.value
    }

    /// Identities with one number are one identity.
    pub proof fn lemma_same(a: CodeVersion, b: CodeVersion)
        ensures
            (a.id() == b.id()) == (a == b),
    {
    }
}

impl Identity for CodeVersion {
    open spec fn raw(self) -> u64 {
        self.id()
    }

    open spec fn kind_name() -> Seq<char> {
        "CodeVersion"@
    }

    fn name() -> (r: &'static str) {
        "CodeVersion"
    }

    fn from_nonzero(value: u64) -> (r: CodeVersion) {
        CodeVersion { value }
    }
}

#[derive(Clone, Copy, Debug, PartialEq, Eq, PartialOrd, Ord, Hash, Structural)]
pub struct ReachabilityVersion {
    value: u64,
}

impl ReachabilityVersion {
    #[verifier::type_invariant]
    spec fn nonzero(self) -> bool {
        self.value != 0
    }

    pub closed spec fn id(self) -> u64 {
        self.value
    }

    pub fn new(value: u64) -> (r: Option<ReachabilityVersion>)
        ensures
            r is None <==> value == 0,
            r matches Some(identity) ==> identity.id() == value,
    {
        if value == 0 {
            None
        } else {
            Some(ReachabilityVersion { value })
        }
    }

    pub fn get(self) -> (r: u64)
        ensures
            r == self.id(),
            r != 0,
    {
        proof {
            use_type_invariant(&self);
        }
        self.value
    }

    /// Identities with one number are one identity.
    pub proof fn lemma_same(a: ReachabilityVersion, b: ReachabilityVersion)
        ensures
            (a.id() == b.id()) == (a == b),
    {
    }
}

impl Identity for ReachabilityVersion {
    open spec fn raw(self) -> u64 {
        self.id()
    }

    open spec fn kind_name() -> Seq<char> {
        "ReachabilityVersion"@
    }

    fn name() -> (r: &'static str) {
        "ReachabilityVersion"
    }

    fn from_nonzero(value: u64) -> (r: ReachabilityVersion) {
        ReachabilityVersion { value }
    }
}

#[derive(Clone, Copy, Debug, PartialEq, Eq, PartialOrd, Ord, Hash, Structural)]
pub struct HcqFamilyId {
    value: u64,
}

impl HcqFamilyId {
    #[verifier::type_invariant]
    spec fn nonzero(self) -> bool {
        self.value != 0
    }

    pub closed spec fn id(self) -> u64 {
        self.value
    }

    pub fn new(value: u64) -> (r: Option<HcqFamilyId>)
        ensures
            r is None <==> value == 0,
            r matches Some(identity) ==> identity.id() == value,
    {
        if value == 0 {
            None
        } else {
            Some(HcqFamilyId { value })
        }
    }

    pub fn get(self) -> (r: u64)
        ensures
            r == self.id(),
            r != 0,
    {
        proof {
            use_type_invariant(&self);
        }
        self.value
    }

    /// Identities with one number are one identity.
    pub proof fn lemma_same(a: HcqFamilyId, b: HcqFamilyId)
        ensures
            (a.id() == b.id()) == (a == b),
    {
    }
}

impl Identity for HcqFamilyId {
    open spec fn raw(self) -> u64 {
        self.id()
    }

    open spec fn kind_name() -> Seq<char> {
        "HcqFamilyId"@
    }

    fn name() -> (r: &'static str) {
        "HcqFamilyId"
    }

    fn from_nonzero(value: u64) -> (r: HcqFamilyId) {
        HcqFamilyId { value }
    }
}

#[derive(Clone, Copy, Debug, PartialEq, Eq, PartialOrd, Ord, Hash, Structural)]
pub struct FamilyVersion {
    value: u64,
}

impl FamilyVersion {
    #[verifier::type_invariant]
    spec fn nonzero(self) -> bool {
        self.value != 0
    }

    pub closed spec fn id(self) -> u64 {
        self.value
    }

    pub fn new(value: u64) -> (r: Option<FamilyVersion>)
        ensures
            r is None <==> value == 0,
            r matches Some(identity) ==> identity.id() == value,
    {
        if value == 0 {
            None
        } else {
            Some(FamilyVersion { value })
        }
    }

    pub fn get(self) -> (r: u64)
        ensures
            r == self.id(),
            r != 0,
    {
        proof {
            use_type_invariant(&self);
        }
        self.value
    }

    /// Identities with one number are one identity.
    pub proof fn lemma_same(a: FamilyVersion, b: FamilyVersion)
        ensures
            (a.id() == b.id()) == (a == b),
    {
    }
}

impl Identity for FamilyVersion {
    open spec fn raw(self) -> u64 {
        self.id()
    }

    open spec fn kind_name() -> Seq<char> {
        "FamilyVersion"@
    }

    fn name() -> (r: &'static str) {
        "FamilyVersion"
    }

    fn from_nonzero(value: u64) -> (r: FamilyVersion) {
        FamilyVersion { value }
    }
}

#[derive(Clone, Copy, Debug, PartialEq, Eq, PartialOrd, Ord, Hash, Structural)]
pub struct SegmentGeneration {
    value: u64,
}

impl SegmentGeneration {
    #[verifier::type_invariant]
    spec fn nonzero(self) -> bool {
        self.value != 0
    }

    pub closed spec fn id(self) -> u64 {
        self.value
    }

    pub fn new(value: u64) -> (r: Option<SegmentGeneration>)
        ensures
            r is None <==> value == 0,
            r matches Some(identity) ==> identity.id() == value,
    {
        if value == 0 {
            None
        } else {
            Some(SegmentGeneration { value })
        }
    }

    pub fn get(self) -> (r: u64)
        ensures
            r == self.id(),
            r != 0,
    {
        proof {
            use_type_invariant(&self);
        }
        self.value
    }

    /// Identities with one number are one identity.
    pub proof fn lemma_same(a: SegmentGeneration, b: SegmentGeneration)
        ensures
            (a.id() == b.id()) == (a == b),
    {
    }
}

impl Identity for SegmentGeneration {
    open spec fn raw(self) -> u64 {
        self.id()
    }

    open spec fn kind_name() -> Seq<char> {
        "SegmentGeneration"@
    }

    fn name() -> (r: &'static str) {
        "SegmentGeneration"
    }

    fn from_nonzero(value: u64) -> (r: SegmentGeneration) {
        SegmentGeneration { value }
    }
}

#[derive(Clone, Copy, Debug, PartialEq, Eq, PartialOrd, Ord, Hash, Structural)]
pub struct ExecutionEpoch {
    value: u64,
}

impl ExecutionEpoch {
    #[verifier::type_invariant]
    spec fn nonzero(self) -> bool {
        self.value != 0
    }

    pub closed spec fn id(self) -> u64 {
        self.value
    }

    pub fn new(value: u64) -> (r: Option<ExecutionEpoch>)
        ensures
            r is None <==> value == 0,
            r matches Some(identity) ==> identity.id() == value,
    {
        if value == 0 {
            None
        } else {
            Some(ExecutionEpoch { value })
        }
    }

    pub fn get(self) -> (r: u64)
        ensures
            r == self.id(),
            r != 0,
    {
        proof {
            use_type_invariant(&self);
        }
        self.value
    }

    /// Identities with one number are one identity.
    pub proof fn lemma_same(a: ExecutionEpoch, b: ExecutionEpoch)
        ensures
            (a.id() == b.id()) == (a == b),
    {
    }
}

impl Identity for ExecutionEpoch {
    open spec fn raw(self) -> u64 {
        self.id()
    }

    open spec fn kind_name() -> Seq<char> {
        "ExecutionEpoch"@
    }

    fn name() -> (r: &'static str) {
        "ExecutionEpoch"
    }

    fn from_nonzero(value: u64) -> (r: ExecutionEpoch) {
        ExecutionEpoch { value }
    }
}

#[derive(Clone, Copy, Debug, PartialEq, Eq, PartialOrd, Ord, Hash, Structural)]
pub struct AdmissionEpoch {
    value: u64,
}

impl AdmissionEpoch {
    #[verifier::type_invariant]
    spec fn nonzero(self) -> bool {
        self.value != 0
    }

    pub closed spec fn id(self) -> u64 {
        self.value
    }

    pub fn new(value: u64) -> (r: Option<AdmissionEpoch>)
        ensures
            r is None <==> value == 0,
            r matches Some(identity) ==> identity.id() == value,
    {
        if value == 0 {
            None
        } else {
            Some(AdmissionEpoch { value })
        }
    }

    pub fn get(self) -> (r: u64)
        ensures
            r == self.id(),
            r != 0,
    {
        proof {
            use_type_invariant(&self);
        }
        self.value
    }

    /// Identities with one number are one identity.
    pub proof fn lemma_same(a: AdmissionEpoch, b: AdmissionEpoch)
        ensures
            (a.id() == b.id()) == (a == b),
    {
    }
}

impl Identity for AdmissionEpoch {
    open spec fn raw(self) -> u64 {
        self.id()
    }

    open spec fn kind_name() -> Seq<char> {
        "AdmissionEpoch"@
    }

    fn name() -> (r: &'static str) {
        "AdmissionEpoch"
    }

    fn from_nonzero(value: u64) -> (r: AdmissionEpoch) {
        AdmissionEpoch { value }
    }
}

#[derive(Clone, Copy, Debug, PartialEq, Eq, PartialOrd, Ord, Hash, Structural)]
pub struct MaintenanceSequence {
    value: u64,
}

impl MaintenanceSequence {
    #[verifier::type_invariant]
    spec fn nonzero(self) -> bool {
        self.value != 0
    }

    pub closed spec fn id(self) -> u64 {
        self.value
    }

    pub fn new(value: u64) -> (r: Option<MaintenanceSequence>)
        ensures
            r is None <==> value == 0,
            r matches Some(identity) ==> identity.id() == value,
    {
        if value == 0 {
            None
        } else {
            Some(MaintenanceSequence { value })
        }
    }

    pub fn get(self) -> (r: u64)
        ensures
            r == self.id(),
            r != 0,
    {
        proof {
            use_type_invariant(&self);
        }
        self.value
    }

    /// Identities with one number are one identity.
    pub proof fn lemma_same(a: MaintenanceSequence, b: MaintenanceSequence)
        ensures
            (a.id() == b.id()) == (a == b),
    {
    }
}

impl Identity for MaintenanceSequence {
    open spec fn raw(self) -> u64 {
        self.id()
    }

    open spec fn kind_name() -> Seq<char> {
        "MaintenanceSequence"@
    }

    fn name() -> (r: &'static str) {
        "MaintenanceSequence"
    }

    fn from_nonzero(value: u64) -> (r: MaintenanceSequence) {
        MaintenanceSequence { value }
    }
}

#[derive(Clone, Copy, Debug, PartialEq, Eq, PartialOrd, Ord, Hash, Structural)]
pub struct DispatchGeneration {
    value: u64,
}

impl DispatchGeneration {
    #[verifier::type_invariant]
    spec fn nonzero(self) -> bool {
        self.value != 0
    }

    pub closed spec fn id(self) -> u64 {
        self.value
    }

    pub fn new(value: u64) -> (r: Option<DispatchGeneration>)
        ensures
            r is None <==> value == 0,
            r matches Some(identity) ==> identity.id() == value,
    {
        if value == 0 {
            None
        } else {
            Some(DispatchGeneration { value })
        }
    }

    pub fn get(self) -> (r: u64)
        ensures
            r == self.id(),
            r != 0,
    {
        proof {
            use_type_invariant(&self);
        }
        self.value
    }

    /// Identities with one number are one identity.
    pub proof fn lemma_same(a: DispatchGeneration, b: DispatchGeneration)
        ensures
            (a.id() == b.id()) == (a == b),
    {
    }
}

impl Identity for DispatchGeneration {
    open spec fn raw(self) -> u64 {
        self.id()
    }

    open spec fn kind_name() -> Seq<char> {
        "DispatchGeneration"@
    }

    fn name() -> (r: &'static str) {
        "DispatchGeneration"
    }

    fn from_nonzero(value: u64) -> (r: DispatchGeneration) {
        DispatchGeneration { value }
    }
}

#[derive(Clone, Copy, Debug, PartialEq, Eq, PartialOrd, Ord, Hash, Structural)]
pub struct AdmissionSnapshotSequence {
    value: u64,
}

impl AdmissionSnapshotSequence {
    #[verifier::type_invariant]
    spec fn nonzero(self) -> bool {
        self.value != 0
    }

    pub closed spec fn id(self) -> u64 {
        self.value
    }

    pub fn new(value: u64) -> (r: Option<AdmissionSnapshotSequence>)
        ensures
            r is None <==> value == 0,
            r matches Some(identity) ==> identity.id() == value,
    {
        if value == 0 {
            None
        } else {
            Some(AdmissionSnapshotSequence { value })
        }
    }

    pub fn get(self) -> (r: u64)
        ensures
            r == self.id(),
            r != 0,
    {
        proof {
            use_type_invariant(&self);
        }
        self.value
    }

    /// Identities with one number are one identity.
    pub proof fn lemma_same(a: AdmissionSnapshotSequence, b: AdmissionSnapshotSequence)
        ensures
            (a.id() == b.id()) == (a == b),
    {
    }
}

impl Identity for AdmissionSnapshotSequence {
    open spec fn raw(self) -> u64 {
        self.id()
    }

    open spec fn kind_name() -> Seq<char> {
        "AdmissionSnapshotSequence"@
    }

    fn name() -> (r: &'static str) {
        "AdmissionSnapshotSequence"
    }

    fn from_nonzero(value: u64) -> (r: AdmissionSnapshotSequence) {
        AdmissionSnapshotSequence { value }
    }
}

#[derive(Clone, Copy, Debug, PartialEq, Eq, PartialOrd, Ord, Hash, Structural)]
pub struct SampleSequence {
    value: u64,
}

impl SampleSequence {
    #[verifier::type_invariant]
    spec fn nonzero(self) -> bool {
        self.value != 0
    }

    pub closed spec fn id(self) -> u64 {
        self.value
    }

    pub fn new(value: u64) -> (r: Option<SampleSequence>)
        ensures
            r is None <==> value == 0,
            r matches Some(identity) ==> identity.id() == value,
    {
        if value == 0 {
            None
        } else {
            Some(SampleSequence { value })
        }
    }

    pub fn get(self) -> (r: u64)
        ensures
            r == self.id(),
            r != 0,
    {
        proof {
            use_type_invariant(&self);
        }
        self.value
    }

    /// Identities with one number are one identity.
    pub proof fn lemma_same(a: SampleSequence, b: SampleSequence)
        ensures
            (a.id() == b.id()) == (a == b),
    {
    }
}

impl Identity for SampleSequence {
    open spec fn raw(self) -> u64 {
        self.id()
    }

    open spec fn kind_name() -> Seq<char> {
        "SampleSequence"@
    }

    fn name() -> (r: &'static str) {
        "SampleSequence"
    }

    fn from_nonzero(value: u64) -> (r: SampleSequence) {
        SampleSequence { value }
    }
}

/// The identity space of the named kind is used up.
#[derive(Clone, Copy, Debug, PartialEq, Eq)]
pub struct IdentityExhausted(pub &'static str);

impl IdentityExhausted {
    pub open spec fn text(self) -> Seq<char> {
        "JIT "@ + self.0@ + " identity space exhausted"@
    }

    pub fn message(&self) -> (r: String)
        ensures
            r@ == self.text(),
    {
        String::from_str("JIT ").concat(self.0).concat(" identity space exhausted")
    }
}

/// Issues the identities of one kind in order, starting with 1.
pub struct CheckedCounter<T: Identity> {
    last: u64,
    marker: PhantomData<T>,
}

impl<T: Identity> Default for CheckedCounter<T> {
    fn default() -> (r: CheckedCounter<T>)
        ensures
            r.last() == 0,
    {
        CheckedCounter { last: 0, marker: PhantomData }
    }
}

impl<T: Identity> CheckedCounter<T> {
    /// The number issued last, or zero.
    pub closed spec fn last(&self) -> u64 {
        self.last
    }

    /// A counter whose next identity follows `last`.
    pub fn resume_after(last: u64) -> (r: CheckedCounter<T>)
        ensures
            r.last() == last,
    {
        CheckedCounter { last, marker: PhantomData }
    }

    pub fn exhausted() -> (r: CheckedCounter<T>)
        ensures
            r.last() == u64::MAX,
    {
        CheckedCounter { last: u64::MAX, marker: PhantomData }
    }

    /// Issues the next identity. An exhausted counter stays exhausted.
    pub fn next_id(&mut self) -> (r: Result<T, IdentityExhausted>)
        ensures
            r is Ok <==> old(self).last() < u64::MAX,
            match r {
                Ok(identity) => identity.raw() == old(self).last() + 1 && final(self).last()
                    == identity.raw(),
                Err(error) => error.0@ == T::kind_name() && *final(self) == *old(self),
            },
    {
        if self.last == u64::MAX {
            return Err(IdentityExhausted(T::name()));
        }
        let next: u64 = self.last + 1;
        self.last = next;
        Ok(T::from_nonzero(next))
    }

    /// Issues exactly `count` identities for one indivisible update. Failure
    /// consumes nothing.
    pub fn take_ids(&mut self, count: usize) -> (r: Result<Vec<T>, IdentityExhausted>)
        ensures
            r is Ok <==> old(self).last() + count <= u64::MAX,
            match r {
                Ok(ids) => {
                    &&& ids@.len() == count
                    &&& final(self).last() == old(self).last() + count
                    &&& forall|k: int|
                        0 <= k < count ==> (#[trigger] ids@[k]).raw() == old(self).last() + 1 + k
                },
                Err(error) => error.0@ == T::kind_name() && *final(self) == *old(self),
            },
    {
        let count_u64: u64 = count as u64;
        if count_u64 > u64::MAX - self.last {
            return Err(IdentityExhausted(T::name()));
        }
        let start: u64 = self.last;
        let mut ids: Vec<T> = Vec::new();
        let mut k: u64 = 0;
        while k < count_u64
            invariant
                k <= count_u64,
                count_u64 == count,
                start + count_u64 <= u64::MAX,
                ids@.len() == k,
                forall|j: int| 0 <= j < k ==> (#[trigger] ids@[j]).raw() == start + 1 + j,
            decreases count_u64 - k,
        {
            ids.push(T::from_nonzero(start + k + 1));
            k = k + 1;
        }
        self.last = start + count_u64;
        Ok(ids)
    }
}

} // verus!
