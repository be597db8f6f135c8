//! Slots with handles that are never reused.

use vstd::prelude::*;
use crate::abi::IdentityExhausted;

verus! {

/// A slot index with the number of the value that was put there.
#[derive(Clone, Copy, Debug, PartialEq, Eq, Hash, Structural)]
pub struct Handle {
    pub index: usize,
    pub generation: u64,
}

/// `held` keeps an emptied slot from being reused until its owner lets go.
pub struct Slot<T> {
    pub generation: u64,
    pub value: Option<T>,
    pub held: bool,
}

/// Values behind handles. Storage grows only when its owner has charged for it.
pub struct Registry<T> {
    slots: Vec<Slot<T>>,
    capacity: usize,
    last: u64,
}

impl<T> Registry<T> {
    /// The value behind each handle.
    pub closed spec fn view(&self) -> Map<Handle, T> {
        Map::new(
            |h: Handle|
                h.index < self.slots@.len() && self.slots@[h.index as int].generation
                    == h.generation && self.slots@[h.index as int].value is Some,
            |h: Handle| self.slots@[h.index as int].value->0,
        )
    }

    /// Handles of emptied slots that are not free yet.
    pub closed spec fn held(&self) -> Set<Handle> {
        Set::new(
            |h: Handle|
                h.index < self.slots@.len() && self.slots@[h.index as int].generation
                    == h.generation && self.slots@[h.index as int].value is None
                    && self.slots@[h.index as int].held,
        )
    }

    /// The number of the newest value.
    pub closed spec fn newest(&self) -> u64 {
        self.last
    }

    pub closed spec fn charged(&self) -> usize {
        self.capacity
    }

    pub closed spec fn wf(&self) -> bool {
        &&& self.slots@.len() <= self.capacity
        &&& forall|i: int|
            0 <= i < self.slots@.len() ==> (#[trigger] self.slots@[i]).generation <= self.last
        &&& forall|i: int|
            0 <= i < self.slots@.len() && (#[trigger] self.slots@[i]).value is Some
                ==> !self.slots@[i].held
    }

    /// A value can be put in without more storage.
    pub closed spec fn space(&self) -> bool {
        self.slots@.len() < self.capacity || exists|i: int|
            0 <= i < self.slots@.len() && (#[trigger] self.slots@[i]).value is None
                && !self.slots@[i].held
    }

    pub fn new() -> (r: Registry<T>)
        ensures
            r.wf(),
            r@.dom() == Set::<Handle>::empty(),
            r.held() == Set::<Handle>::empty(),
            r.newest() == 0,
            r.charged() == 0,
    {
        let r = Registry { slots: Vec::new(), capacity: 0, last: 0 };
        proof {
            assert(r@.dom() =~= Set::<Handle>::empty());
            assert(r.held() =~= Set::<Handle>::empty());
        }
        r
    }

    /// A registry whose next value would need a number beyond the last.
    pub fn exhausted(capacity: usize) -> (r: Registry<T>)
        ensures
            r.wf(),
            r@.dom() == Set::<Handle>::empty(),
            r.held() == Set::<Handle>::empty(),
            r.newest() == u64::MAX,
            r.charged() == capacity,
    {
        let r = Registry { slots: Vec::new(), capacity, last: u64::MAX };
        proof {
            assert(r@.dom() =~= Set::<Handle>::empty());
            assert(r.held() =~= Set::<Handle>::empty());
        }
        r
    }

    pub fn capacity(&self) -> (r: usize)
        ensures
            r == self.charged(),
    {
        self.capacity
    }

    /// Takes over more storage.
    pub fn grow(&mut self, capacity: usize)
        requires
            old(self).wf(),
            capacity >= old(self).charged(),
        ensures
            final(self).wf(),
            final(self)@ == old(self)@,
            final(self).held() == old(self).held(),
            final(self).newest() == old(self).newest(),
            final(self).charged() == capacity,
            capacity > old(self).charged() || old(self).space() ==> final(self).space(),
    {
        self.capacity = capacity;
        proof {
            assert(self@ =~= old(self)@);
            assert(self.held() =~= old(self).held());
            if capacity > old(self).charged() {
                assert(self.slots@.len() < self.capacity);
            } else if old(self).space() && !(self.slots@.len() < self.capacity) {
                let i = choose|i: int|
                    0 <= i < old(self).slots@.len() && (#[trigger] old(
                        self,
                    ).slots@[i]).value is None && !old(self).slots@[i].held;
                assert(self.slots@[i].value is None);
            }
        }
    }

    fn free_index(&self) -> (r: usize)
        requires
            self.wf(),
        ensures
            r <= self.slots@.len(),
            r < self.slots@.len() ==> self.slots@[r as int].value is None
                && !self.slots@[r as int].held,
            self.space() == (r < self.slots@.len() || self.slots@.len() < self.capacity),
    {
        let mut i: usize = 0;
        while i < self.slots.len()
            invariant
                i <= self.slots@.len(),
                forall|j: int|
                    0 <= j < i ==> !((#[trigger] self.slots@[j]).value is None
                        && !self.slots@[j].held),
            decreases self.slots@.len() - i,
        {
            if self.slots[i].value.is_none() && !self.slots[i].held {
                return i;
            }
            i = i + 1;
        }
        i
    }

    pub fn has_space(&self) -> (r: bool)
        requires
            self.wf(),
        ensures
            r == self.space(),
    {
        let i: usize = self.free_index();
        i < self.slots.len() || self.slots.len() < self.capacity
    }

    /// The handle that the next value would get.
    pub fn next_handle(&self) -> (r: Result<Handle, IdentityExhausted>)
        requires
            self.wf(),
        ensures
            r is Ok <==> self.newest() < u64::MAX,
            r matches Ok(h) ==> h.generation == self.newest() + 1 && !self@.dom().contains(h),
            r matches Err(e) ==> e.0@ == "registry handle"@,
    {
        if self.last == u64::MAX {
            return Err(IdentityExhausted("registry handle"));
        }
        Ok(Handle { index: self.free_index(), generation: self.last + 1 })
    }

    /// Puts a value in. Its handle has never been used before.
    pub fn insert(&mut self, value: T) -> (r: Result<Handle, IdentityExhausted>)
        requires
            old(self).wf(),
            old(self).space(),
        ensures
            final(self).wf(),
            r is Ok <==> old(self).newest() < u64::MAX,
            match r {
                Ok(h) => {
                    &&& h.generation == old(self).newest() + 1
                    &&& !old(self)@.dom().contains(h)
                    &&& final(self)@ == old(self)@.insert(h, value)
                    &&& final(self).newest() == h.generation
                },
                Err(e) => {
                    &&& e.0@ == "registry handle"@
                    &&& final(self)@ == old(self)@
                    &&& final(self).newest() == old(self).newest()
                },
            },
            final(self).held() == old(self).held(),
            final(self).charged() == old(self).charged(),
    {
        if self.last == u64::MAX {
            return Err(IdentityExhausted("registry handle"));
        }
        let index: usize = self.free_index();
        let generation: u64 = self.last + 1;
        let slot = Slot { generation, value: Some(value), held: false };
        if index < self.slots.len() {
            self.slots.set(index, slot);
        } else {
            self.slots.push(slot);
        }
        self.last = generation;
        let handle = Handle { index, generation };
        proof {
            assert(self@ =~= old(self)@.insert(handle, value));
            assert(self.held() =~= old(self).held());
        }
        Ok(handle)
    }

    pub fn contains(&self, handle: Handle) -> (r: bool)
        ensures
            r == self@.dom().contains(handle),
    {
        handle.index < self.slots.len() && self.slots[handle.index].generation == handle.generation
            && self.slots[handle.index].value.is_some()
    }

    pub fn get(&self, handle: Handle) -> (r: Option<&T>)
        ensures
            match r {
                Some(value) => self@.dom().contains(handle) && *value == self@[handle],
                None => !self@.dom().contains(handle),
            },
    {
        if handle.index < self.slots.len() && self.slots[handle.index].generation
            == handle.generation {
            self.slots[handle.index].value.as_ref()
        } else {
            None
        }
    }

    pub fn get_mut(&mut self, handle: Handle) -> (r: &mut T)
        requires
            old(self).wf(),
            old(self)@.dom().contains(handle),
        ensures
            final(self).wf(),
            *r == old(self)@[handle],
            final(self)@ == old(self)@.insert(handle, *final(r)),
            final(self).held() == old(self).held(),
            final(self).newest() == old(self).newest(),
            final(self).charged() == old(self).charged(),
    {
        self.slots[handle.index].value.as_mut().unwrap()
    }

    /// Takes a value out and frees its slot.
    pub fn remove(&mut self, handle: Handle) -> (r: Option<T>)
        requires
            old(self).wf(),
        ensures
            final(self).wf(),
            r == if old(self)@.dom().contains(handle) {
                Some(old(self)@[handle])
            } else {
                None
            },
            final(self)@ == old(self)@.remove(handle),
            final(self).held() == old(self).held(),
            final(self).newest() == old(self).newest(),
            final(self).charged() == old(self).charged(),
    {
        if !self.contains(handle) {
            proof {
                assert(self@ =~= old(self)@.remove(handle));
            }
            return None;
        }
        let value = self.slots[handle.index].value.take();
        proof {
            assert(self@ =~= old(self)@.remove(handle));
            assert(self.held() =~= old(self).held());
        }
        value
    }

    /// Takes a value out and keeps its slot from being reused.
    pub fn take_held(&mut self, handle: Handle) -> (r: Option<T>)
        requires
            old(self).wf(),
        ensures
            final(self).wf(),
            r == if old(self)@.dom().contains(handle) {
                Some(old(self)@[handle])
            } else {
                None
            },
            final(self)@ == old(self)@.remove(handle),
            final(self).held() == if old(self)@.dom().contains(handle) {
                old(self).held().insert(handle)
            } else {
                old(self).held()
            },
            final(self).newest() == old(self).newest(),
            final(self).charged() == old(self).charged(),
    {
        if !self.contains(handle) {
            proof {
                assert(self@ =~= old(self)@.remove(handle));
            }
            return None;
        }
        let value = self.slots[handle.index].value.take();
        self.slots[handle.index].held = true;
        proof {
            assert(self@ =~= old(self)@.remove(handle));
            assert(self.held() =~= old(self).held().insert(handle));
        }
        value
    }

    /// Puts a taken value back behind its handle.
    pub fn restore(&mut self, handle: Handle, value: T)
        requires
            old(self).wf(),
            old(self).held().contains(handle),
        ensures
            final(self).wf(),
            final(self)@ == old(self)@.insert(handle, value),
            final(self).held() == old(self).held().remove(handle),
            final(self).newest() == old(self).newest(),
            final(self).charged() == old(self).charged(),
    {
        self.slots[handle.index].value = Some(value);
        self.slots[handle.index].held = false;
        proof {
            assert(self@ =~= old(self)@.insert(handle, value));
            assert(self.held() =~= old(self).held().remove(handle));
        }
    }

    /// Frees a held slot.
    pub fn release_held(&mut self, handle: Handle) -> (r: bool)
        requires
            old(self).wf(),
        ensures
            final(self).wf(),
            r == old(self).held().contains(handle),
            final(self)@ == old(self)@,
            final(self).held() == old(self).held().remove(handle),
            final(self).newest() == old(self).newest(),
            final(self).charged() == old(self).charged(),
    {
        if handle.index < self.slots.len() && self.slots[handle.index].generation
            == handle.generation && self.slots[handle.index].value.is_none()
            && self.slots[handle.index].held {
            self.slots[handle.index].held = false;
            proof {
                assert(self@ =~= old(self)@);
                assert(self.held() =~= old(self).held().remove(handle));
            }
            true
        } else {
            proof {
                assert(self.held() =~= old(self).held().remove(handle));
            }
            false
        }
    }

    /// Neither values nor held slots are left.
    pub fn is_empty(&self) -> (r: bool)
        ensures
            r == (self@.dom() == Set::<Handle>::empty() && self.held() == Set::<Handle>::empty()),
    {
        let mut i: usize = 0;
        while i < self.slots.len()
            invariant
                i <= self.slots@.len(),
                forall|j: int|
                    0 <= j < i ==> (#[trigger] self.slots@[j]).value is None
                        && !self.slots@[j].held,
            decreases self.slots@.len() - i,
        {
            if self.slots[i].value.is_some() || self.slots[i].held {
                proof {
                    let h = Handle { index: i, generation: self.slots@[i as int].generation };
                    if self.slots@[i as int].value is Some {
                        assert(self@.dom().contains(h));
                    } else {
                        assert(self.held().contains(h));
                    }
                }
                return false;
            }
            i = i + 1;
        }
        proof {
            assert(self@.dom() =~= Set::<Handle>::empty());
            assert(self.held() =~= Set::<Handle>::empty());
        }
        true
    }

    /// There are no more values than a list can hold.
    pub proof fn lemma_countable(&self)
        requires
            self.wf(),
        ensures
            self@.dom().finite(),
            self@.dom().len() <= usize::MAX,
    {
        let whole = Set::new(|h: Handle| self@.dom().contains(h) && h.index < self.slots@.len());
        self.lemma_countable_below(self.slots@.len() as int);
        assert(whole =~= self@.dom());
    }

    proof fn lemma_countable_below(&self, end: int)
        requires
            0 <= end <= self.slots@.len(),
        ensures
            Set::new(|h: Handle| self@.dom().contains(h) && h.index < end).finite(),
            Set::new(|h: Handle| self@.dom().contains(h) && h.index < end).len() <= end,
        decreases end,
    {
        let below = Set::new(|h: Handle| self@.dom().contains(h) && h.index < end);
        if end == 0 {
            assert(below =~= Set::<Handle>::empty());
        } else {
            self.lemma_countable_below(end - 1);
            let shorter = Set::new(|h: Handle| self@.dom().contains(h) && h.index < end - 1);
            let last = Handle {
                index: (end - 1) as usize,
                generation: self.slots@[end - 1].generation,
            };
            if self@.dom().contains(last) {
                assert(below =~= shorter.insert(last));
            } else {
                assert(below =~= shorter);
            }
        }
    }

    /// Every handle, by slot.
    pub fn handles(&self) -> (r: Vec<Handle>)
        ensures
            forall|k: int| 0 <= k < r@.len() ==> self@.dom().contains(#[trigger] r@[k]),
            forall|h: Handle| #[trigger] self@.dom().contains(h) ==> r@.contains(h),
            forall|j: int, k: int|
                0 <= j < k < r@.len() ==> (#[trigger] r@[j]).index < (#[trigger] r@[k]).index,
    {
        let mut r: Vec<Handle> = Vec::new();
        let mut i: usize = 0;
        while i < self.slots.len()
            invariant
                i <= self.slots@.len(),
                forall|k: int| 0 <= k < r@.len() ==> self@.dom().contains(#[trigger] r@[k]),
                forall|k: int| 0 <= k < r@.len() ==> (#[trigger] r@[k]).index < i,
                forall|h: Handle| #[trigger]
                    self@.dom().contains(h) && h.index < i ==> r@.contains(h),
                forall|j: int, k: int|
                    0 <= j < k < r@.len() ==> (#[trigger] r@[j]).index < (#[trigger] r@[k]).index,
            decreases self.slots@.len() - i,
        {
            let ghost before = r@;
            if self.slots[i].value.is_some() {
                r.push(Handle { index: i, generation: self.slots[i].generation });
            }
            proof {
                assert forall|h: Handle| #[trigger]
                    self@.dom().contains(h) && h.index < i + 1 implies r@.contains(h) by {
                    if h.index < i {
                        assert(before.contains(h));
                        let k = choose|k: int| 0 <= k < before.len() && before[k] == h;
                        assert(r@[k] == h);
                    } else {
                        assert(r@[r@.len() - 1] == h);
                    }
                }
            }
            i = i + 1;
        }
        r
    }
}

} // verus!
