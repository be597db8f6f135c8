//! Sums over sets of handles.

use vstd::prelude::*;
use super::registry::Handle;

verus! {

/// The weights of the handles, added up.
pub open spec fn total(handles: Set<Handle>, weight: spec_fn(Handle) -> int) -> int
    decreases handles.len(),
    when handles.finite()
{
    if handles.len() == 0 {
        0
    } else {
        let first = handles.choose();
        weight(first) + total(handles.remove(first), weight)
    }
}

/// Any handle can be taken out first.
pub(crate) proof fn lemma_total_remove(
    handles: Set<Handle>,
    weight: spec_fn(Handle) -> int,
    handle: Handle,
)
    requires
        handles.finite(),
        handles.contains(handle),
    ensures
        total(handles, weight) == weight(handle) + total(handles.remove(handle), weight),
    decreases handles.len(),
{
    let first = handles.choose();
    assert(handles.len() > 0) by {
        if handles.len() == 0 {
            assert(handles =~= Set::empty());
        }
    }
    assert(handles.contains(first));
    if first != handle {
        let rest = handles.remove(first);
        lemma_total_remove(rest, weight, handle);
        lemma_total_remove(handles.remove(handle), weight, first);
        assert(rest.remove(handle) =~= handles.remove(handle).remove(first));
    }
}

pub(crate) proof fn lemma_total_insert(
    handles: Set<Handle>,
    weight: spec_fn(Handle) -> int,
    handle: Handle,
)
    requires
        handles.finite(),
        !handles.contains(handle),
    ensures
        total(handles.insert(handle), weight) == weight(handle) + total(handles, weight),
{
    lemma_total_remove(handles.insert(handle), weight, handle);
    assert(handles.insert(handle).remove(handle) =~= handles);
}

/// A part sums up to no more, and no more where each weight is no larger.
pub(crate) proof fn lemma_total_within(
    part: Set<Handle>,
    lighter: spec_fn(Handle) -> int,
    whole: Set<Handle>,
    weight: spec_fn(Handle) -> int,
)
    requires
        whole.finite(),
        part.subset_of(whole),
        forall|h: Handle| #[trigger] whole.contains(h) ==> 0 <= weight(h),
        forall|h: Handle| #[trigger] part.contains(h) ==> lighter(h) <= weight(h),
    ensures
        part.finite(),
        total(part, lighter) <= total(whole, weight),
        0 <= total(whole, weight),
    decreases whole.len(),
{
    vstd::set_lib::lemma_len_subset(part, whole);
    if whole.len() != 0 {
        let first = whole.choose();
        assert(whole.contains(first)) by {
            if whole =~= Set::<Handle>::empty() {
                assert(whole.len() == 0);
            }
        }
        lemma_total_within(part.remove(first), lighter, whole.remove(first), weight);
        if part.contains(first) {
            lemma_total_remove(part, lighter, first);
        } else {
            assert(part.remove(first) =~= part);
        }
    } else {
        assert(part =~= Set::<Handle>::empty());
    }
}

/// Two parts that share nothing sum up to their union.
pub(crate) proof fn lemma_total_union(
    a: Set<Handle>,
    b: Set<Handle>,
    weight: spec_fn(Handle) -> int,
)
    requires
        a.finite(),
        b.finite(),
        a.disjoint(b),
    ensures
        total(a.union(b), weight) == total(a, weight) + total(b, weight),
    decreases a.len(),
{
    if a.len() == 0 {
        assert(a =~= Set::<Handle>::empty());
        assert(a.union(b) =~= b);
    } else {
        let first = a.choose();
        assert(a.contains(first)) by {
            if a =~= Set::<Handle>::empty() {
                assert(a.len() == 0);
            }
        }
        lemma_total_union(a.remove(first), b, weight);
        lemma_total_remove(a.union(b), weight, first);
        assert(a.union(b).remove(first) =~= a.remove(first).union(b));
    }
}

/// Weights that agree on the handles give the same sum.
pub(crate) proof fn lemma_total_alike(
    handles: Set<Handle>,
    a: spec_fn(Handle) -> int,
    b: spec_fn(Handle) -> int,
)
    requires
        handles.finite(),
        forall|h: Handle| #[trigger] handles.contains(h) ==> a(h) == b(h),
    ensures
        total(handles, a) == total(handles, b),
    decreases handles.len(),
{
    if handles.len() != 0 {
        let first = handles.choose();
        assert(handles.contains(first)) by {
            if handles =~= Set::<Handle>::empty() {
                assert(handles.len() == 0);
            }
        }
        lemma_total_alike(handles.remove(first), a, b);
    }
}

} // verus!
