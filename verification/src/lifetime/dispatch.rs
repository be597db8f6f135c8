//! Dispatch slots, their publication and the readers that look them up.

use vstd::prelude::*;
use super::coordinator::{exhausted, Coordinator, Error};
use super::keys::{entry_bytes, limited, KeyIndex};
use super::process::{
    amounts, byte_sum, bytes_of, charge_fault, charges_fault, grow_capacity, grown, item_bytes,
    lemma_refund_undoes, refunded, refunded_option, replaced_storage, refused, reports, Announcement, ChargeFault, DispatchSlot, Lifetime,
};
use super::registry::{Handle, Slot};
use super::sums::{lemma_total_insert, total};
use super::units::{lemma_refunded_nothing, lemma_refunds_add};
use crate::abi::dispatch::{DispatchPayload, HcqEntry, PublishedEntry};
use crate::abi::identity::{AdmissionEpoch, ExecutionEpoch, ReachabilityVersion};
use crate::abi::keys::BlockKey;
use crate::executable::cache::{Cache, MetadataLease};
use crate::executable::Tier;

verus! {

/// The exact state of a slot for which new code is being prepared.
#[derive(Clone, Copy, Debug)]
pub struct Publication {
    pub process: u64,
    pub key: BlockKey,
    pub slot: Handle,
    pub admission: AdmissionEpoch,
    pub reachability: ReachabilityVersion,
}

/// A larger key index, with the bytes that it takes.
pub struct LargerKeys {
    pub keys: KeyIndex,
    pub bytes: usize,
}

pub open spec fn larger_keys_bytes(larger: Option<LargerKeys>) -> usize {
    match larger {
        Some(larger) => larger.bytes,
        None => 0,
    }
}

/// What a reservation changes and captures, and when it is refused.
pub open spec fn reserves(
    before: Lifetime,
    after: Lifetime,
    key: BlockKey,
    room: usize,
    larger: Option<LargerKeys>,
    r: Result<Publication, Error>,
) -> bool {
    &&& after == (Lifetime {
        core: after.core,
        slots: after.slots,
        keys: after.keys,
        reachabilities: after.reachabilities,
        slot_storage: after.slot_storage,
        key_storage: after.key_storage,
        cache: after.cache,
        ..before
    })
    &&& match r {
        Ok(publication) => {
            &&& before.core.admitted() is Ok
            &&& publication.process == before.identity
            &&& publication.key == key
            &&& after.current(publication)
            &&& after.core == before.core
            &&& if before.keys@.dom().contains(key) {
                after == before
            } else {
                &&& before.slots.newest() < u64::MAX
                &&& before.reachabilities.last() < u64::MAX
                &&& !before.slots@.dom().contains(publication.slot)
                &&& after.keys@ == before.keys@.insert(key, publication.slot)
                &&& after.slots@.remove(publication.slot) == before.slots@.remove(publication.slot)
                &&& after.slots@[publication.slot].payload.preferred_of() is None
                &&& after.slots@[publication.slot].payload.hcq_of() is None
                &&& after.slots@[publication.slot].charge.bytes == payload_bytes()
                &&& before.slots_replaced(after)
                &&& before.keys_replaced(after, room, larger)
                &&& publication.reachability.id() == before.reachabilities.last() + 1
                &&& after.reachabilities.last() == publication.reachability.id()
                &&& before.slot_fault(room, larger_keys_bytes(larger)) is None
                &&& after.cache == before.slot_cost(room, larger_keys_bytes(larger))
            }
        },
        Err(error) => {
            &&& after.slots@ == before.slots@
            &&& after.keys@ == before.keys@
            &&& match before.core.admitted() {
                Err(closed) => error == closed && after == before,
                Ok(_) => {
                    &&& !before.keys@.dom().contains(key)
                    &&& if before.reachabilities.last() == u64::MAX {
                        &&& exhausted(error, "ReachabilityVersion"@)
                        &&& after == (Lifetime {
                            core: before.core.failed_with(error),
                            reachabilities: after.reachabilities,
                            ..before
                        })
                    } else {
                        match before.slot_fault(room, larger_keys_bytes(larger)) {
                            // What was charged is returned, and nothing has grown.
                            Some(fault) => {
                                &&& reports(fault, error)
                                &&& after == (Lifetime {
                                    reachabilities: after.reachabilities,
                                    ..before
                                })
                            },
                            // The storage has grown; the payload is given up.
                            None => {
                                &&& before.slots.newest() == u64::MAX
                                &&& exhausted(error, "registry handle"@)
                                &&& after.core == before.core.failed_with(error)
                                &&& before.slots_replaced(after)
                                &&& before.keys_replaced(after, room, larger)
                                &&& after.cache == refunded(
                                    before.slot_cost(room, larger_keys_bytes(larger)),
                                    payload_bytes(),
                                )
                            },
                        }
                    }
                },
            }
        },
    }
}

/// A reader that is inside, with the payload that it copied on entry.
#[derive(Clone, Copy, Debug)]
pub struct Invocation {
    pub reader: Handle,
    pub payload: DispatchPayload,
    pub execution: u64,
    pub admission: u64,
}

/// Bytes charged for a reader and for a payload.
pub open spec fn reader_bytes() -> int {
    item_bytes(1, core::mem::size_of::<Announcement>())
}

pub open spec fn payload_bytes() -> int {
    item_bytes(1, core::mem::size_of::<DispatchSlot>())
}

impl Lifetime {
    /// No reader is inside since `retired` or before.
    pub open spec fn quiescent_at(&self, retired: u64) -> bool {
        forall|reader: Handle| #[trigger]
            self.readers@.dom().contains(reader) ==> self.readers@[reader].epoch == 0
                || self.readers@[reader].epoch > retired
    }

    pub fn quiescent(&self, retired: ExecutionEpoch) -> (r: bool)
        ensures
            r == self.quiescent_at(retired.id()),
    {
        let handles = self.readers.handles();
        let mut k: usize = 0;
        while k < handles.len()
            invariant
                k <= handles@.len(),
                forall|j: int|
                    0 <= j < handles@.len() ==> self.readers@.dom().contains(
                        #[trigger] handles@[j],
                    ),
                forall|h: Handle| #[trigger]
                    self.readers@.dom().contains(h) ==> handles@.contains(h),
                forall|j: int|
                    0 <= j < k ==> self.readers@[#[trigger] handles@[j]].epoch == 0
                        || self.readers@[handles@[j]].epoch > retired.id(),
            decreases handles@.len() - k,
        {
            assert(self.readers@.dom().contains(handles@[k as int]));
            if let Some(reader) = self.readers.get(handles[k]) {
                if reader.epoch != 0 && reader.epoch <= retired.get() {
                    return false;
                }
            }
            k = k + 1;
        }
        true
    }

    /// No reader is inside.
    pub open spec fn idle_now(&self) -> bool {
        forall|reader: Handle| #[trigger]
            self.readers@.dom().contains(reader) ==> self.readers@[reader].epoch == 0
    }

    pub fn idle(&self) -> (r: bool)
        ensures
            r == self.idle_now(),
    {
        let handles = self.readers.handles();
        let mut k: usize = 0;
        while k < handles.len()
            invariant
                k <= handles@.len(),
                forall|j: int|
                    0 <= j < handles@.len() ==> self.readers@.dom().contains(
                        #[trigger] handles@[j],
                    ),
                forall|h: Handle| #[trigger]
                    self.readers@.dom().contains(h) ==> handles@.contains(h),
                forall|j: int|
                    0 <= j < k ==> self.readers@[#[trigger] handles@[j]].epoch == 0,
            decreases handles@.len() - k,
        {
            assert(self.readers@.dom().contains(handles@[k as int]));
            if let Some(reader) = self.readers.get(handles[k]) {
                if reader.epoch != 0 {
                    return false;
                }
            }
            k = k + 1;
        }
        true
    }

    /// Bytes of new storage for readers, where the storage is full.
    pub open spec fn reader_growth(&self) -> int {
        if self.readers.space() {
            0
        } else {
            item_bytes(
                grown(self.readers.charged()),
                core::mem::size_of::<Slot<Announcement>>(),
            )
        }
    }

    /// Gives readers more storage where it is full.
    fn grow_readers(&mut self) -> (r: Result<(), Error>)
        requires
            old(self).wf(),
            old(self).readers.charged() < usize::MAX,
        ensures
            final(self).wf(),
            *final(self) == (Lifetime {
                readers: final(self).readers,
                reader_storage: final(self).reader_storage,
                cache: final(self).cache,
                ..*old(self)
            }),
            final(self).readers@ == old(self).readers@,
            final(self).readers.newest() == old(self).readers.newest(),
            match r {
                Ok(_) => {
                    &&& final(self).readers.space()
                    &&& old(self).readers.space() ==> *final(self) == *old(self)
                    &&& !old(self).readers.space() ==> charge_fault(
                        old(self).cache,
                        old(self).reader_growth(),
                        Tier::Lcq,
                    ) is None && final(self).cache == refunded_option(
                        old(self).cache.charged(old(self).reader_growth()),
                        old(self).reader_storage,
                    )
                },
                Err(error) => {
                    &&& !old(self).readers.space()
                    &&& refused(old(self).cache, old(self).reader_growth(), Tier::Lcq, error)
                    &&& *final(self) == *old(self)
                },
            },
    {
        if self.readers.has_space() {
            return Ok(());
        }
        let capacity: usize = grow_capacity(self.readers.capacity());
        let bytes: usize = bytes_of(capacity, core::mem::size_of::<Slot<Announcement>>());
        let lease = self.charge(bytes, Tier::Lcq)?;
        self.readers.grow(capacity);
        let before = self.reader_storage.take();
        self.reader_storage = Some(lease);
        self.refund_option(before);
        Ok(())
    }

    /// Registers a reader that is outside.
    pub fn register(&mut self) -> (r: Result<Handle, Error>)
        requires
            old(self).wf(),
            old(self).readers.charged() < usize::MAX,
        ensures
            final(self).wf(),
            final(self).slots == old(self).slots,
            final(self).keys == old(self).keys,
            final(self).units == old(self).units,
            match r {
                Ok(handle) => {
                    &&& old(self).core.failure is None && !old(self).core.shutdown
                    &&& old(self).readers.newest() < u64::MAX
                    &&& !old(self).readers@.dom().contains(handle)
                    &&& final(self).readers@.dom() == old(self).readers@.dom().insert(handle)
                    &&& final(self).readers@[handle].epoch == 0
                    &&& final(self).readers@.remove(handle) == old(self).readers@.remove(handle)
                    &&& final(self).core == old(self).core
                    &&& final(self).readers@[handle].charge.bytes == reader_bytes()
                    &&& final(self).cache == if old(self).readers.space() {
                        old(self).cache.charged(reader_bytes())
                    } else {
                        refunded_option(
                            old(self).cache.charged(reader_bytes()).charged(
                                old(self).reader_growth(),
                            ),
                            old(self).reader_storage,
                        )
                    }
                },
                Err(error) => {
                    &&& final(self).readers@ == old(self).readers@
                    &&& if charge_fault(old(self).cache, reader_bytes(), Tier::Lcq) is Some {
                        refused(old(self).cache, reader_bytes(), Tier::Lcq, error)
                    } else if old(self).core.failure is Some {
                        error == old(self).core.failure->0
                    } else if old(self).core.shutdown {
                        error == Error::Shutdown
                    } else if !old(self).readers.space() && charge_fault(
                        old(self).cache.charged(reader_bytes()),
                        old(self).reader_growth(),
                        Tier::Lcq,
                    ) is Some {
                        refused(
                            old(self).cache.charged(reader_bytes()),
                            old(self).reader_growth(),
                            Tier::Lcq,
                            error,
                        )
                    } else {
                        &&& old(self).readers.newest() == u64::MAX
                        &&& exhausted(error, "registry handle"@)
                        &&& final(self).core == old(self).core.failed_with(error)
                    }
                    &&& !exhausted(error, "registry handle"@) ==> final(self).core == old(
                        self,
                    ).core && final(self).cache == old(self).cache
                },
            },
    {
        let bytes: usize = bytes_of(1, core::mem::size_of::<Announcement>());
        let charge = self.charge(bytes, Tier::Lcq)?;
        proof {
            lemma_refund_undoes(old(self).cache, bytes as int, Tier::Lcq);
        }
        if let Err(error) = self.core.healthy() {
            self.refund(charge);
            return Err(error);
        }
        if self.core.shutdown {
            self.refund(charge);
            return Err(Error::Shutdown);
        }
        if let Err(error) = self.grow_readers() {
            self.refund(charge);
            return Err(error);
        }
        if let Err(error) = self.readers.next_handle() {
            let error = Error::Exhausted(error);
            self.refund(charge);
            self.core.fail(error);
            return Err(error);
        }
        match self.readers.insert(Announcement { epoch: 0, charge }) {
            Ok(handle) => {
                proof {
                    assert(self.readers@.remove(handle) =~= old(self).readers@.remove(handle));
                }
                Ok(handle)
            },
            Err(error) => Err(Error::Exhausted(error)),
        }
    }

    /// Forgets a reader. One that is still inside stays: its code may be in use.
    pub fn unregister(&mut self, reader: Handle)
        requires
            old(self).wf(),
        ensures
            final(self).wf(),
            *final(self) == (Lifetime {
                readers: final(self).readers,
                cache: final(self).cache,
                ..*old(self)
            }),
            final(self).readers@ == if old(self).readers@.dom().contains(reader) && old(
                self,
            ).readers@[reader].epoch == 0 {
                old(self).readers@.remove(reader)
            } else {
                old(self).readers@
            },
            final(self).cache == if old(self).readers@.dom().contains(reader) && old(
                self,
            ).readers@[reader].epoch == 0 {
                refunded(old(self).cache, old(self).readers@[reader].charge.bytes as int)
            } else {
                old(self).cache
            },
    {
        let outside = match self.readers.get(reader) {
            Some(announcement) => announcement.epoch == 0,
            None => false,
        };
        if outside {
            if let Some(announcement) = self.readers.remove(reader) {
                self.refund(announcement.charge);
            }
        }
    }

    /// The publication still describes its slot.
    pub open spec fn current(&self, publication: Publication) -> bool {
        &&& self.core.admitted() == Ok::<AdmissionEpoch, Error>(publication.admission)
        &&& self.keys@.dom().contains(publication.key)
        &&& self.keys@[publication.key] == publication.slot
        &&& self.slots@[publication.slot].payload.reachability_of() == publication.reachability
    }

    /// Why a publication is refused.
    pub open spec fn publication_error(&self, publication: Publication) -> Error {
        match self.core.admitted() {
            Err(error) => error,
            Ok(_) => Error::StalePublication,
        }
    }

    pub fn validate(&self, publication: &Publication) -> (r: Result<(), Error>)
        requires
            self.wf(),
        ensures
            r == if self.current(*publication) {
                Ok::<(), Error>(())
            } else {
                Err::<(), Error>(self.publication_error(*publication))
            },
    {
        let admission = self.core.open()?;
        if admission != publication.admission {
            return Err(Error::StalePublication);
        }
        if self.keys.get(publication.key) != Some(publication.slot) {
            return Err(Error::StalePublication);
        }
        match self.slots.get(publication.slot) {
            Some(slot) => {
                if slot.retired.is_some() || slot.payload.reachability()
                    != publication.reachability {
                    Err(Error::StalePublication)
                } else {
                    Ok(())
                }
            },
            None => Err(Error::StalePublication),
        }
    }

    /// Bytes of the storage that one more slot needs.
    pub open spec fn slot_storage_bytes(&self) -> int {
        if self.slots.space() {
            0
        } else {
            item_bytes(grown(self.slots.charged()), core::mem::size_of::<Slot<DispatchSlot>>())
        }
    }

    /// The key index has room for so many keys.
    pub open spec fn key_room(&self, room: usize) -> bool {
        self.keys@.dom().len() <= room && self.keys.limit() <= room
    }

    /// What is charged for one more slot: its payload, and storage for it and its key
    /// where there is no room. The key index has `room`, and a larger one takes `bytes`.
    pub open spec fn slot_charges(&self, room: usize, bytes: usize) -> Seq<int> {
        seq![
            payload_bytes(),
            self.slot_storage_bytes(),
            if self.keys@.dom().len() >= room {
                bytes as int
            } else {
                0
            },
        ]
    }

    /// A larger index with the same keys is at hand where one is needed.
    pub open spec fn keys_ready(&self, room: usize, larger: Option<LargerKeys>) -> bool {
        self.keys@.dom().len() >= room ==> (larger matches Some(larger) && larger.keys.wf()
            && larger.keys@ == self.keys@)
    }

    /// What the hash table of the key index may offer: room for what it holds and was
    /// made for, and where no key fits in any more a larger one that is made for more and
    /// takes no fewer bytes than that.
    pub open spec fn keys_offer(&self, room: usize, larger: Option<LargerKeys>) -> bool {
        &&& self.key_room(room)
        &&& match larger {
            Some(larger) => {
                &&& self.keys@.dom().len() >= room
                &&& larger.keys.wf()
                &&& larger.keys@ == self.keys@
                &&& larger.keys.limit() == limited(grown(room) as int)
                &&& larger.keys.limit() * entry_bytes() <= larger.bytes
                &&& larger.keys@.dom().len() * entry_bytes() <= larger.bytes
            },
            None => self.keys@.dom().len() < room,
        }
    }

    /// The storage of slots is the one that was charged, where there was no room.
    pub open spec fn slots_replaced(&self, after: Lifetime) -> bool {
        after.slot_storage == if self.slots.space() {
            self.slot_storage
        } else {
            Some(MetadataLease { bytes: self.slot_storage_bytes() as usize })
        }
    }

    /// The key index is the larger one, where the index was full.
    pub open spec fn keys_replaced(
        &self,
        after: Lifetime,
        room: usize,
        larger: Option<LargerKeys>,
    ) -> bool {
        if self.keys@.dom().len() >= room {
            &&& after.keys.limit() == larger->0.keys.limit()
            &&& after.key_storage == Some(MetadataLease { bytes: larger->0.bytes })
        } else {
            &&& after.keys.limit() == self.keys.limit()
            &&& after.key_storage == self.key_storage
        }
    }

    /// Why storage for one more slot is refused.
    pub open spec fn slot_fault(&self, room: usize, bytes: usize) -> Option<ChargeFault> {
        charges_fault(self.cache, self.slot_charges(room, bytes), Tier::Lcq)
    }

    /// The cache with one more slot: all is charged beside what is there, and then the
    /// storage that was replaced is returned.
    pub open spec fn slot_cost(&self, room: usize, bytes: usize) -> Cache {
        replaced_storage(
            replaced_storage(
                self.cache.charged(byte_sum(self.slot_charges(room, bytes))),
                !self.slots.space(),
                self.slot_storage,
            ),
            self.keys@.dom().len() >= room,
            self.key_storage,
        )
    }

    /// The capacity to ask of a larger key index, where the index has `room` and no
    /// key fits in any more.
    pub fn request_keys(&self, room: usize) -> (r: Option<usize>)
        requires
            self.wf(),
        ensures
            r == if self.keys@.dom().len() < room {
                None::<usize>
            } else {
                Some(grown(room))
            },
    {
        if self.keys.len() < room {
            None
        } else {
            Some(grow_capacity(room))
        }
    }

    /// Takes over a larger key index, which is charged.
    fn adopt_keys(&mut self, larger: LargerKeys)
        requires
            old(self).wf(),
            larger.keys.wf(),
            larger.keys@ == old(self).keys@,
        ensures
            final(self).wf(),
            *final(self) == (Lifetime {
                keys: larger.keys,
                key_storage: Some(MetadataLease { bytes: larger.bytes }),
                cache: refunded_option(old(self).cache, old(self).key_storage),
                ..*old(self)
            }),
    {
        self.keys = larger.keys;
        let before = self.key_storage.take();
        self.key_storage = Some(MetadataLease { bytes: larger.bytes });
        self.refund_option(before);
    }

    /// The room of the key index, and a larger one where no key fits in any more.
    pub fn offer_keys(&self) -> (r: (usize, Option<LargerKeys>))
        requires
            self.wf(),
        ensures
            self.keys_offer(r.0, r.1),
    {
        let room: usize = self.keys.capacity();
        match self.request_keys(room) {
            None => (room, None),
            Some(capacity) => {
                let keys = self.keys.with_room(capacity);
                let bytes: usize = keys.allocation_size();
                (room, Some(LargerKeys { keys, bytes }))
            },
        }
    }

    /// Takes over larger storage of slots, which is charged.
    fn adopt_slots(&mut self, capacity: usize, bytes: usize)
        requires
            old(self).wf(),
            capacity > old(self).slots.charged(),
        ensures
            final(self).wf(),
            *final(self) == (Lifetime {
                slots: final(self).slots,
                slot_storage: Some(MetadataLease { bytes }),
                cache: refunded_option(old(self).cache, old(self).slot_storage),
                ..*old(self)
            }),
            final(self).slots@ == old(self).slots@,
            final(self).slots.newest() == old(self).slots.newest(),
            final(self).slots.space(),
    {
        self.slots.grow(capacity);
        let before = self.slot_storage.take();
        self.slot_storage = Some(MetadataLease { bytes });
        self.refund_option(before);
    }

    /// Captures the state of the slot for a key. A key without a slot gets one
    /// that publishes nothing. How much room the key index has and how many bytes a
    /// larger one takes, its hash table decides.
    pub fn reserve(&mut self, key: BlockKey) -> (r: Result<Publication, Error>)
        requires
            old(self).wf(),
            old(self).slots.charged() < usize::MAX,
        ensures
            final(self).wf(),
            exists|room: usize, larger: Option<LargerKeys>| #[trigger]
                old(self).keys_offer(room, larger) && reserves(
                    *old(self),
                    *final(self),
                    key,
                    room,
                    larger,
                    r,
                ),
    {
        let (room, larger) = self.offer_keys();
        assert(self.keys_offer(room, larger));
        self.reserve_with(key, room, larger)
    }

    /// The same, where the key index has `room` and a larger one is at hand.
    pub fn reserve_with(&mut self, key: BlockKey, room: usize, larger: Option<LargerKeys>) -> (r:
        Result<Publication, Error>)
        requires
            old(self).wf(),
            old(self).slots.charged() < usize::MAX,
            old(self).keys_ready(room, larger),
        ensures
            final(self).wf(),
            reserves(*old(self), *final(self), key, room, larger, r),
    {
        let admission = self.core.open()?;
        if let Some(slot) = self.keys.get(key) {
            if let Some(found) = self.slots.get(slot) {
                return Ok(
                    Publication {
                        process: self.identity,
                        key,
                        slot,
                        admission,
                        reachability: found.payload.reachability(),
                    },
                );
            }
        }
        let version: ReachabilityVersion = match self.reachabilities.next_id() {
            Ok(version) => version,
            Err(error) => {
                let error = Error::Exhausted(error);
                self.core.fail(error);
                return Err(error);
            },
        };
        let payload: usize = bytes_of(1, core::mem::size_of::<DispatchSlot>());
        let full: bool = !self.slots.has_space();
        let capacity: usize = grow_capacity(self.slots.capacity());
        let storage: usize = if full {
            bytes_of(capacity, core::mem::size_of::<Slot<DispatchSlot>>())
        } else {
            0
        };
        let wanted: bool = self.request_keys(room).is_some();
        let index: usize = match &larger {
            Some(larger) if wanted => larger.bytes,
            _ => 0,
        };
        let mut bytes: Vec<usize> = Vec::new();
        bytes.push(payload);
        bytes.push(storage);
        bytes.push(index);
        proof {
            assert(amounts(bytes@) =~= old(self).slot_charges(room, larger_keys_bytes(larger)));
            lemma_refunded_nothing(old(self).cache);
        }
        self.charge_each(0, &bytes, Tier::Lcq)?;
        let charge = MetadataLease { bytes: payload };
        if full {
            self.adopt_slots(capacity, storage);
        }
        if wanted {
            if let Some(larger) = larger {
                self.adopt_keys(larger);
            }
        }
        if let Err(error) = self.slots.next_handle() {
            let error = Error::Exhausted(error);
            self.refund(charge);
            self.core.fail(error);
            return Err(error);
        }
        let slot = DispatchSlot {
            key,
            payload: DispatchPayload::new(version, None, None),
            retired: None,
            charge,
        };
        match self.slots.insert(slot) {
            Ok(handle) => {
                self.keys.insert(key, handle);
                proof {
                    assert(self.slots@.remove(handle) =~= old(self).slots@.remove(handle));
                    assert forall|other: BlockKey| #[trigger] self.keys@.dom().contains(
                        other,
                    ) implies self.slots@.dom().contains(self.keys@[other])
                        && self.slots@[self.keys@[other]].retired is None
                        && self.slots@[self.keys@[other]].key == other by {
                        if other != key {
                            assert(old(self).keys@.dom().contains(other));
                        }
                    }
                    assert forall|h: Handle| #[trigger] self.slots@.dom().contains(h) implies super::process::retired_before(
                        self.slots@[h],
                        self.core.execution.id() as int,
                    ) && self.slots@[h].payload.reachability_of().id()
                        <= self.reachabilities.last() by {
                        if h != handle {
                            assert(old(self).slots@.dom().contains(h));
                        }
                    }
                }
                Ok(
                    Publication {
                        process: self.identity,
                        key,
                        slot: handle,
                        admission,
                        reachability: version,
                    },
                )
            },
            Err(error) => Err(Error::Exhausted(error)),
        }
    }

    /// The state with another payload in a slot.
    pub open spec fn replaced(&self, slot: Handle, payload: DispatchPayload, other: Lifetime) -> bool {
        &&& other.slots@.dom() == self.slots@.dom()
        &&& other.slots@[slot].payload == payload
        &&& other.slots@[slot].retired == self.slots@[slot].retired
        &&& other.slots@[slot].key == self.slots@[slot].key
        &&& other.slots@.remove(slot) == self.slots@.remove(slot)
    }

    /// Publishes entries that no unit owns, for the exact state that was captured.
    pub fn publish(
        &mut self,
        publication: Publication,
        lcq: Option<PublishedEntry>,
        hcq: Option<HcqEntry>,
    ) -> (r: Result<ReachabilityVersion, Error>)
        requires
            old(self).wf(),
        ensures
            final(self).wf(),
            *final(self) == (Lifetime {
                slots: final(self).slots,
                reachabilities: final(self).reachabilities,
                core: final(self).core,
                cache: final(self).cache,
                ..*old(self)
            }),
            match r {
                Ok(version) => {
                    &&& publication.process == old(self).identity
                    &&& old(self).current(publication)
                    &&& version.id() == old(self).reachabilities.last() + 1
                    &&& final(self).core == old(self).core
                    &&& final(self).slots@[publication.slot].payload.reachability_of() == version
                    &&& final(self).slots@[publication.slot].payload.lcq_of() == lcq
                    &&& final(self).slots@[publication.slot].payload.hcq_of() == hcq
                    &&& old(self).replaced(
                        publication.slot,
                        final(self).slots@[publication.slot].payload,
                        *final(self),
                    )
                    &&& final(self).slots@[publication.slot].charge.bytes == payload_bytes()
                    &&& final(self).cache == refunded(
                        old(self).cache.charged(payload_bytes()),
                        old(self).slots@[publication.slot].charge.bytes as int,
                    )
                },
                Err(error) => {
                    &&& final(self).slots@ == old(self).slots@
                    &&& if publication.process != old(self).identity {
                        error == Error::StalePublication && *final(self) == *old(self)
                    } else if !old(self).current(publication) {
                        error == old(self).publication_error(publication) && *final(self) == *old(
                            self,
                        )
                    } else if old(self).reachabilities.last() == u64::MAX {
                        &&& exhausted(error, "ReachabilityVersion"@)
                        &&& final(self).core == old(self).core.failed_with(error)
                    } else {
                        &&& refused(
                            old(self).cache,
                            payload_bytes(),
                            if hcq is Some {
                                Tier::Hcq
                            } else {
                                Tier::Lcq
                            },
                            error,
                        )
                        &&& final(self).core == old(self).core
                        &&& final(self).cache == old(self).cache
                    }
                },
            },
    {
        if publication.process != self.identity {
            return Err(Error::StalePublication);
        }
        self.validate(&publication)?;
        let version: ReachabilityVersion = match self.reachabilities.next_id() {
            Ok(version) => version,
            Err(error) => {
                let error = Error::Exhausted(error);
                self.core.fail(error);
                return Err(error);
            },
        };
        let tier = if hcq.is_some() {
            Tier::Hcq
        } else {
            Tier::Lcq
        };
        let bytes: usize = bytes_of(1, core::mem::size_of::<DispatchSlot>());
        let mut charge = self.charge(bytes, tier)?;
        let slot = self.slots.get_mut(publication.slot);
        slot.payload = DispatchPayload::new(version, lcq, hcq);
        core::mem::swap(&mut slot.charge, &mut charge);
        proof {
            assert(self.slots@.remove(publication.slot) =~= old(self).slots@.remove(
                publication.slot,
            ));
            assert(self.slots@.dom() =~= old(self).slots@.dom());
        }
        self.refund(charge);
        proof {
            lemma_slots_kept(*old(self), *self);
        }
        Ok(version)
    }

    /// Takes an empty slot out of use. It is collected once no reader can be
    /// using it.
    pub fn retire_dispatch(&mut self, publication: Publication) -> (r: Result<(), Error>)
        requires
            old(self).wf(),
        ensures
            final(self).wf(),
            *final(self) == (Lifetime {
                slots: final(self).slots,
                keys: final(self).keys,
                core: final(self).core,
                ..*old(self)
            }),
            match r {
                Ok(_) => {
                    &&& publication.process == old(self).identity
                    &&& old(self).current(publication)
                    &&& old(self).slots@[publication.slot].payload.preferred_of() is None
                    &&& final(self).keys@ == old(self).keys@.remove(publication.key)
                    &&& final(self).slots@ == old(self).slots@.insert(
                        publication.slot,
                        DispatchSlot {
                            retired: Some(old(self).core.execution),
                            ..old(self).slots@[publication.slot]
                        },
                    )
                    &&& final(self).core.execution.id() == old(self).core.executions.last() + 1
                    &&& final(self).core.executions.last() == final(self).core.execution.id()
                    &&& final(self).core == (Coordinator {
                        execution: final(self).core.execution,
                        executions: final(self).core.executions,
                        ..old(self).core
                    })
                },
                Err(error) => {
                    &&& final(self).slots@ == old(self).slots@
                    &&& final(self).keys@ == old(self).keys@
                    &&& final(self).core.execution == old(self).core.execution
                    &&& if publication.process != old(self).identity {
                        error == Error::StalePublication && *final(self) == *old(self)
                    } else if !old(self).current(publication) {
                        error == old(self).publication_error(publication) && *final(self) == *old(
                            self,
                        )
                    } else if old(self).slots@[publication.slot].payload.preferred_of() is Some {
                        error == Error::OccupiedDispatch && *final(self) == *old(self)
                    } else {
                        &&& old(self).core.executions.last() == u64::MAX
                        &&& exhausted(error, "ExecutionEpoch"@)
                        &&& *final(self) == (Lifetime {
                            core: old(self).core.failed_with(error),
                            ..*old(self)
                        })
                    }
                },
            },
    {
        if publication.process != self.identity {
            return Err(Error::StalePublication);
        }
        self.validate(&publication)?;
        if let Some(slot) = self.slots.get(publication.slot) {
            if slot.payload.preferred().is_some() {
                return Err(Error::OccupiedDispatch);
            }
        }
        let next = self.core.next_execution()?;
        self.keys.remove(publication.key);
        let retired = self.core.execution;
        self.slots.get_mut(publication.slot).retired = Some(retired);
        self.core.execution = next;
        proof {
            assert forall|key: BlockKey| #[trigger] self.keys@.dom().contains(
                key,
            ) implies self.slots@.dom().contains(self.keys@[key])
                && self.slots@[self.keys@[key]].retired is None
                && self.slots@[self.keys@[key]].key == key by {
                assert(old(self).keys@.dom().contains(key));
                assert(old(self).keys@.dom().contains(publication.key));
            }
            assert(self.slots@.dom() =~= old(self).slots@.dom());
            lemma_slots_kept(*old(self), *self);
        }
        Ok(())
    }

    /// A unit still names the slot.
    pub open spec fn named(&self, slot: Handle) -> bool {
        exists|unit: Handle, i: int|
            self.units.records@.dom().contains(unit) && 0 <= i
                < self.units.records@[unit].slots@.len()
                && #[trigger] self.units.records@[unit].slots@[i] == slot
    }

    pub fn is_named(&self, slot: Handle) -> (r: bool)
        ensures
            r == self.named(slot),
    {
        let handles = self.units.records.handles();
        let mut k: usize = 0;
        while k < handles.len()
            invariant
                k <= handles@.len(),
                forall|j: int|
                    0 <= j < handles@.len() ==> self.units.records@.dom().contains(
                        #[trigger] handles@[j],
                    ),
                forall|h: Handle| #[trigger]
                    self.units.records@.dom().contains(h) ==> handles@.contains(h),
                forall|j: int, i: int|
                    0 <= j < k && 0 <= i < self.units.records@[handles@[j]].slots@.len()
                        ==> #[trigger] self.units.records@[handles@[j]].slots@[i] != slot,
            decreases handles@.len() - k,
        {
            assert(self.units.records@.dom().contains(handles@[k as int]));
            if let Some(record) = self.units.records.get(handles[k]) {
                let mut i: usize = 0;
                while i < record.slots.len()
                    invariant
                        i <= record.slots@.len(),
                        k < handles@.len(),
                        self.units.records@.dom().contains(handles@[k as int]),
                        *record == self.units.records@[handles@[k as int]],
                        forall|j: int| 0 <= j < i ==> #[trigger] record.slots@[j] != slot,
                    decreases record.slots@.len() - i,
                {
                    if record.slots[i] == slot {
                        assert(self.units.records@[handles@[k as int]].slots@[i as int] == slot);
                        return true;
                    }
                    i = i + 1;
                }
            }
            k = k + 1;
        }
        proof {
            if self.named(slot) {
                let (unit, i) = choose|unit: Handle, i: int|
                    self.units.records@.dom().contains(unit) && 0 <= i
                        < self.units.records@[unit].slots@.len()
                        && #[trigger] self.units.records@[unit].slots@[i] == slot;
                let j = choose|j: int| 0 <= j < handles@.len() && handles@[j] == unit;
                assert(self.units.records@[handles@[j]].slots@[i] == slot);
            }
        }
        false
    }

    /// The slot is out of use, no reader can be using it, and no unit names it.
    pub open spec fn collectable(&self, slot: Handle) -> bool {
        &&& self.slots@.dom().contains(slot)
        &&& self.slots@[slot].retired matches Some(epoch)
        &&& self.quiescent_at(epoch.id())
        &&& !self.named(slot)
    }

    /// The slots that nothing names any more.
    pub open spec fn collectable_slots(&self) -> Set<Handle> {
        Set::new(|slot: Handle| self.collectable(slot))
    }

    /// Exactly the slots are gone that are out of use, that no reader can be using, and
    /// that no unit names any more.
    pub open spec fn slots_collected(&self, after: Lifetime) -> bool {
        after.slots@ == self.slots@.remove_keys(
            Set::new(
                |slot: Handle|
                    self.slots@.dom().contains(slot) && (self.slots@[slot].retired matches Some(
                        epoch,
                    ) && self.quiescent_at(epoch.id())) && !after.named(slot),
            ),
        )
    }

    /// What is charged for each slot.
    pub open spec fn slot_charge(&self) -> spec_fn(Handle) -> int {
        |slot: Handle| self.slots@[slot].charge.bytes as int
    }

    /// Frees the slots that can be freed, and says how many.
    pub fn collect_dispatch(&mut self) -> (r: Result<usize, Error>)
        requires
            old(self).wf(),
        ensures
            final(self).wf(),
            *final(self) == (Lifetime {
                slots: final(self).slots,
                cache: final(self).cache,
                ..*old(self)
            }),
            match r {
                Ok(count) => {
                    &&& old(self).core.failure is None
                    &&& final(self).slots@ == old(self).slots@.remove_keys(
                        old(self).collectable_slots(),
                    )
                    &&& count == old(self).collectable_slots().len()
                    &&& final(self).cache == refunded(
                        old(self).cache,
                        total(old(self).collectable_slots(), old(self).slot_charge()),
                    )
                    &&& 0 <= total(old(self).collectable_slots(), old(self).slot_charge())
                },
                Err(error) => old(self).core.failure == Some(error) && *final(self) == *old(self),
            },
    {
        self.core.healthy()?;
        let handles = self.slots.handles();
        let mut count: usize = 0;
        let mut k: usize = 0;
        let ghost mut gone: Set<Handle> = Set::empty();
        proof {
            lemma_refunded_nothing(self.cache);
        }
        while k < handles.len()
            invariant
                k <= handles@.len(),
                self.wf(),
                old(self).wf(),
                0 <= total(gone, old(self).slot_charge()),
                self.cache == refunded(old(self).cache, total(gone, old(self).slot_charge())),
                *self == (Lifetime { slots: self.slots, cache: self.cache, ..*old(self) }),
                forall|j: int|
                    0 <= j < handles@.len() ==> old(self).slots@.dom().contains(
                        #[trigger] handles@[j],
                    ),
                forall|j: int, i: int|
                    0 <= j < i < handles@.len() ==> (#[trigger] handles@[j]).index < (
                    #[trigger] handles@[i]).index,
                gone.finite(),
                gone.len() == count,
                count <= k,
                self.slots@ == old(self).slots@.remove_keys(gone),
                forall|h: Handle| #[trigger] gone.contains(h) ==> old(self).collectable(h),
                forall|h: Handle| #[trigger]
                    gone.contains(h) ==> exists|j: int| 0 <= j < k && handles@[j] == h,
                forall|j: int|
                    0 <= j < k && old(self).collectable(#[trigger] handles@[j]) ==> gone.contains(
                        handles@[j],
                    ),
            decreases handles@.len() - k,
        {
            let handle = handles[k];
            let ghost before = *self;
            proof {
                if gone.contains(handle) {
                    let j = choose|j: int| 0 <= j < k && handles@[j] == handle;
                    assert(handles@[j].index < handles@[k as int].index);
                }
                assert(self.slots@.dom().contains(handle));
                assert(self.slots@[handle] == old(self).slots@[handle]);
                assert(self.quiescent_at(0) == old(self).quiescent_at(0));
            }
            let retired = match self.slots.get(handle) {
                Some(slot) => slot.retired,
                None => None,
            };
            if let Some(epoch) = retired {
                proof {
                    assert(self.quiescent_at(epoch.id()) == old(self).quiescent_at(epoch.id()));
                    assert(self.named(handle) == old(self).named(handle));
                }
                if self.quiescent(epoch) && !self.is_named(handle) {
                    proof {
                        assert(old(self).collectable(handle));
                    }
                    if let Some(slot) = self.slots.remove(handle) {
                        self.refund(slot.charge);
                    }
                    count = count + 1;
                    proof {
                        lemma_total_insert(gone, old(self).slot_charge(), handle);
                        lemma_refunds_add(
                            old(self).cache,
                            total(gone, old(self).slot_charge()),
                            old(self).slots@[handle].charge.bytes as int,
                        );
                        gone = gone.insert(handle);
                        assert(self.slots@ =~= old(self).slots@.remove_keys(gone));
                        lemma_slot_removed(before, *self, handle);
                    }
                }
            }
            k = k + 1;
        }
        proof {
            let all = old(self).collectable_slots();
            assert forall|h: Handle| #[trigger] all.contains(h) implies gone.contains(h) by {
                assert(old(self).slots@.dom().contains(h));
                let j = choose|j: int| 0 <= j < handles@.len() && handles@[j] == h;
                assert(old(self).collectable(handles@[j]));
            }
            assert(all =~= gone);
        }
        Ok(count)
    }

    /// What a lookup of the key finds.
    pub open spec fn published(&self, key: BlockKey) -> Option<DispatchPayload> {
        if self.keys@.dom().contains(key) && self.slots@[self.keys@[key]].payload.preferred_of()
            is Some {
            Some(self.slots@[self.keys@[key]].payload)
        } else {
            None
        }
    }

    /// Lets a reader in. It announces the current epoch and copies the payload;
    /// without an entry to run it stays outside.
    pub fn enter(&mut self, reader: Handle, key: BlockKey) -> (r: Result<Option<Invocation>, Error>)
        requires
            old(self).wf(),
            old(self).readers@.dom().contains(reader),
        ensures
            final(self).wf(),
            *final(self) == (Lifetime { readers: final(self).readers, ..*old(self) }),
            match r {
                Ok(Some(invocation)) => {
                    &&& old(self).readers@[reader].epoch == 0
                    &&& old(self).core.admitted() is Ok
                    &&& old(self).published(key) == Some(invocation.payload)
                    &&& invocation.reader == reader
                    &&& invocation.execution == old(self).core.execution.id()
                    &&& invocation.admission == old(self).core.admission.id()
                    &&& final(self).readers@ == old(self).readers@.insert(
                        reader,
                        Announcement {
                            epoch: old(self).core.execution.id(),
                            ..old(self).readers@[reader]
                        },
                    )
                },
                Ok(None) => {
                    &&& old(self).readers@[reader].epoch == 0
                    &&& old(self).core.admitted() is Ok
                    &&& old(self).published(key) is None
                    &&& *final(self) == *old(self)
                },
                Err(error) => {
                    &&& *final(self) == *old(self)
                    &&& if old(self).readers@[reader].epoch != 0 {
                        error == Error::ActiveReader
                    } else {
                        old(self).core.admitted() == Err::<AdmissionEpoch, Error>(error)
                    }
                },
            },
    {
        if let Some(announcement) = self.readers.get(reader) {
            if announcement.epoch != 0 {
                return Err(Error::ActiveReader);
            }
        }
        let admission = self.core.open()?;
        let slot = match self.keys.get(key) {
            Some(slot) => slot,
            None => {
                return Ok(None);
            },
        };
        let payload = match self.slots.get(slot) {
            Some(found) => found.payload,
            None => {
                return Ok(None);
            },
        };
        if payload.preferred().is_none() {
            return Ok(None);
        }
        let execution: u64 = self.core.execution.get();
        self.readers.get_mut(reader).epoch = execution;
        Ok(Some(Invocation { reader, payload, execution, admission: admission.get() }))
    }

    /// Lets a reader out. Its native state is complete by then.
    pub fn leave(&mut self, invocation: Invocation)
        requires
            old(self).wf(),
            old(self).readers@.dom().contains(invocation.reader),
        ensures
            final(self).wf(),
            *final(self) == (Lifetime { readers: final(self).readers, ..*old(self) }),
            final(self).readers@ == old(self).readers@.insert(
                invocation.reader,
                Announcement { epoch: 0, ..old(self).readers@[invocation.reader] },
            ),
    {
        self.readers.get_mut(invocation.reader).epoch = 0;
    }
}

/// What other slots and units need is untouched by a change of one slot.
proof fn lemma_slots_kept(before: Lifetime, after: Lifetime)
    requires
        before.wf(),
        after.slots.wf(),
        after.slots@.dom() == before.slots@.dom(),
        after.units == before.units,
        after.readers == before.readers,
        before.core.execution.id() <= after.core.execution.id(),
    ensures
        after.units_keep_slots(),
        after.readers_stamped(),
        after.units.stamped_before(after.core.execution.id() as int),
{
}

proof fn lemma_slot_removed(before: Lifetime, after: Lifetime, slot: Handle)
    requires
        before.wf(),
        before.slots@.dom().contains(slot),
        before.slots@[slot].retired is Some,
        !before.named(slot),
        after.slots@ == before.slots@.remove(slot),
        after.slots.wf(),
        after.cache.wf(),
        after == (Lifetime { slots: after.slots, cache: after.cache, ..before }),
    ensures
        after.wf(),
{
    assert forall|unit: Handle, i: int|
        #![trigger after.units.records@[unit].slots@[i]]
        after.units.records@.dom().contains(unit) && 0 <= i
            < after.units.records@[unit].slots@.len() implies after.slots@.dom().contains(
        after.units.records@[unit].slots@[i],
    ) by {
        assert(before.slots@.dom().contains(before.units.records@[unit].slots@[i]));
    }
    assert forall|key: BlockKey| #[trigger] after.keys@.dom().contains(
        key,
    ) implies after.slots@.dom().contains(after.keys@[key])
        && after.slots@[after.keys@[key]].retired is None
        && after.slots@[after.keys@[key]].key == key by {
        assert(before.keys@.dom().contains(key));
    }
}

/// A publication that was captured before another one succeeded is refused: a
/// stale publication never replaces the current payload.
pub proof fn law_one_publication_per_snapshot(
    before: Lifetime,
    after: Lifetime,
    winner: Publication,
    loser: Publication,
)
    requires
        before.wf(),
        before.current(winner),
        before.current(loser),
        winner.slot == loser.slot,
        after.slots@[winner.slot].payload.reachability_of().id() > before.reachabilities.last(),
    ensures
        !after.current(loser),
{
    assert(before.keys@.dom().contains(loser.key));
    assert(before.slots@.dom().contains(loser.slot));
    ReachabilityVersion::lemma_same(
        after.slots@[winner.slot].payload.reachability_of(),
        loser.reachability,
    );
}

/// A publication that was captured before a stop is refused after it.
pub proof fn law_publications_do_not_cross_a_stop(
    before: Lifetime,
    after: Lifetime,
    publication: Publication,
)
    requires
        before.wf(),
        before.current(publication),
        after.core.admission.id() > before.core.admissions.last(),
    ensures
        !after.current(publication),
{
    if after.current(publication) {
        AdmissionEpoch::lemma_same(after.core.admission, publication.admission);
    }
}

/// A reader that is inside keeps every slot that was in use when it entered: the
/// slot is not collectable, whenever it is retired.
pub proof fn law_readers_protect_their_slots(process: Lifetime, reader: Handle, slot: Handle)
    requires
        process.readers@.dom().contains(reader),
        process.readers@[reader].epoch != 0,
        process.slots@.dom().contains(slot),
        process.slots@[slot].retired matches Some(epoch) ==> process.readers@[reader].epoch
            <= epoch.id(),
    ensures
        !process.collectable(slot),
{
}

/// A reader that entered after a slot was retired does not keep it.
pub proof fn law_later_readers_do_not_pin(process: Lifetime, retired: ExecutionEpoch)
    requires
        forall|reader: Handle| #[trigger]
            process.readers@.dom().contains(reader) && process.readers@[reader].epoch != 0
                ==> process.readers@[reader].epoch > retired.id(),
    ensures
        process.quiescent_at(retired.id()),
{
}

/// A slot that is retired now is stamped at or after the epoch of every reader
/// that is inside.
pub proof fn law_retirement_covers_readers(process: Lifetime, reader: Handle)
    requires
        process.wf(),
        process.readers@.dom().contains(reader),
        process.readers@[reader].epoch != 0,
    ensures
        !process.quiescent_at(process.core.execution.id()),
{
}

} // verus!
