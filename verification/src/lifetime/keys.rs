//! The index from block keys to dispatch slots.
//!
//! `hashbrown::HashTable` exposes its actual allocation size, so that the index
//! can be charged without guessing load factors or group widths. Hashing stays
//! randomized.

use std::collections::hash_map::RandomState;
use std::hash::BuildHasher;
use vstd::prelude::*;
use crate::abi::{BlockKey, FpSpecialization};
use super::registry::Handle;

verus! {

/// A block key as plain numbers: address space, PC, profile, platform, and whether
/// and to which FPCR the code is specialized.
pub type KeyNumbers = (u64, u64, u32, u32, bool, u32);

/// A slot handle as plain numbers.
pub type SlotNumbers = (usize, u64);

pub open spec fn key_numbers(key: BlockKey) -> KeyNumbers {
    match key.fp {
        FpSpecialization::Dynamic => (
            key.address_space,
            key.pc,
            key.profile,
            key.platform,
            false,
            0,
        ),
        FpSpecialization::Exact(fpcr) => (
            key.address_space,
            key.pc,
            key.profile,
            key.platform,
            true,
            fpcr,
        ),
    }
}

fn numbers_of_key(key: BlockKey) -> (r: KeyNumbers)
    ensures
        r == key_numbers(key),
{
    match key.fp {
        FpSpecialization::Dynamic => (
            key.address_space,
            key.pc,
            key.profile,
            key.platform,
            false,
            0,
        ),
        FpSpecialization::Exact(fpcr) => (
            key.address_space,
            key.pc,
            key.profile,
            key.platform,
            true,
            fpcr,
        ),
    }
}

pub open spec fn key_of(numbers: KeyNumbers) -> BlockKey {
    BlockKey {
        address_space: numbers.0,
        pc: numbers.1,
        profile: numbers.2,
        platform: numbers.3,
        fp: if numbers.4 {
            FpSpecialization::Exact(numbers.5)
        } else {
            FpSpecialization::Dynamic
        },
    }
}

/// A hash table of `hashbrown` whose items pair the numbers of a key with the
/// numbers of a slot.
#[verifier::external_body]
pub struct KeyTable {
    entries: hashbrown::HashTable<(KeyNumbers, SlotNumbers)>,
    hash: RandomState,
}

/// The largest capacity that is asked for at once. The memory budget ends before.
pub const TABLE_LIMIT: usize = 0x0100_0000;

/// The capacity that is asked of a table that is wanted for so many items.
pub open spec fn limited(capacity: int) -> int {
    if capacity <= TABLE_LIMIT {
        capacity
    } else {
        TABLE_LIMIT as int
    }
}

/// What a table holds: the slot of each key.
pub uninterp spec fn slots_by_key(table: KeyTable) -> Map<KeyNumbers, SlotNumbers>;

/// The map has exactly `count` keys.
pub open spec fn has_count(map: Map<KeyNumbers, SlotNumbers>, count: nat) -> bool {
    map.dom().finite() && map.dom().len() == count
}

/// The map has at most `room` keys.
pub open spec fn fits(map: Map<KeyNumbers, SlotNumbers>, room: nat) -> bool {
    map.dom().finite() && map.dom().len() <= room
}

/// Bytes of an item.
pub open spec fn entry_bytes() -> usize {
    core::mem::size_of::<(KeyNumbers, SlotNumbers)>()
}

/// The items of the map fit in so many bytes.
pub open spec fn takes(map: Map<KeyNumbers, SlotNumbers>, bytes: int) -> bool {
    map.dom().finite() && map.dom().len() * entry_bytes() <= bytes
}

/// The number of items that a table was made for, as long as none was removed.
pub uninterp spec fn key_limit(table: KeyTable) -> nat;

/// `hashbrown::HashTable::with_capacity`: the table starts empty, and is made for
/// so many items. The call panics on a capacity whose size in bytes does not fit a
/// machine word, far beyond the bound.
#[verifier::external_body]
fn table_with_capacity(capacity: usize) -> (r: KeyTable)
    requires
        capacity <= TABLE_LIMIT,
    ensures
        slots_by_key(r).dom() == Set::<KeyNumbers>::empty(),
        key_limit(r) == capacity,
{
    KeyTable {
        entries: hashbrown::HashTable::with_capacity(capacity),
        hash: RandomState::new(),
    }
}

/// `hashbrown::HashTable::capacity`: the number of items that the table can hold
/// without growing, so never less than it holds, nor less than it was made for.
/// How much more it is depends on the allocation.
#[verifier::external_body]
fn table_capacity(table: &KeyTable) -> (r: usize)
    ensures
        fits(slots_by_key(*table), r as nat),
        key_limit(*table) <= r,
{
    table.entries.capacity()
}

/// `hashbrown::HashTable::allocation_size`: the bytes that the table occupies. A
/// table has no fewer places than it holds items or was made for, and each takes the
/// bytes of an item. How much more it is depends on the allocation.
#[verifier::external_body]
fn table_allocation_size(table: &KeyTable) -> (r: usize)
    ensures
        takes(slots_by_key(*table), r as int),
        key_limit(*table) * entry_bytes() <= r,
{
    table.entries.allocation_size()
}

/// `hashbrown::HashTable::len`: the number of items, which are finitely many.
#[verifier::external_body]
fn table_len(table: &KeyTable) -> (r: usize)
    ensures
        has_count(slots_by_key(*table), r as nat),
{
    table.entries.len()
}

/// `hashbrown::HashTable::find` with the hash of the key and its equality: the
/// item with that key, where there is one.
#[verifier::external_body]
fn table_find(table: &KeyTable, key: KeyNumbers) -> (r: Option<SlotNumbers>)
    ensures
        r == if slots_by_key(*table).dom().contains(key) {
            Some(slots_by_key(*table)[key])
        } else {
            None
        },
{
    match table.entries.find(table.hash.hash_one(key), |entry| entry.0 == key) {
        Some(entry) => Some(entry.1),
        None => None,
    }
}

/// `hashbrown::HashTable::insert_unique`: adds an item; the key must not be there
/// yet. The table never gets smaller by it.
#[verifier::external_body]
fn table_insert(table: &mut KeyTable, key: KeyNumbers, slot: SlotNumbers)
    requires
        !slots_by_key(*old(table)).dom().contains(key),
    ensures
        slots_by_key(*final(table)) == slots_by_key(*old(table)).insert(key, slot),
        key_limit(*final(table)) == key_limit(*old(table)),
{
    let hash = &table.hash;
    table.entries.insert_unique(hash.hash_one(key), (key, slot), |entry| hash.hash_one(entry.0));
}

/// `hashbrown::HashTable::find_entry` and `OccupiedEntry::remove`: drops the item
/// with the key, where there is one. The place of a removed item may not be usable
/// at once, so nothing is stated of the room.
#[verifier::external_body]
fn table_remove(table: &mut KeyTable, key: KeyNumbers)
    ensures
        slots_by_key(*final(table)) == slots_by_key(*old(table)).remove(key),
{
    let hash = table.hash.hash_one(key);
    if let Ok(entry) = table.entries.find_entry(hash, |entry| entry.0 == key) {
        entry.remove();
    }
}

/// `hashbrown::HashTable::iter`: every item once, in no particular order.
#[verifier::external_body]
fn table_entries(table: &KeyTable) -> (r: Vec<(KeyNumbers, SlotNumbers)>)
    ensures
        forall|k: int|
            0 <= k < r@.len() ==> slots_by_key(*table).dom().contains((#[trigger] r@[k]).0)
                && slots_by_key(*table)[r@[k].0] == r@[k].1,
        forall|key: KeyNumbers| #[trigger]
            slots_by_key(*table).dom().contains(key) ==> exists|k: int|
                0 <= k < r@.len() && (#[trigger] r@[k]).0 == key,
        forall|j: int, k: int|
            0 <= j < k < r@.len() ==> (#[trigger] r@[j]).0 != (#[trigger] r@[k]).0,
{
    table.entries.iter().copied().collect()
}

/// The index. A key names at most one slot.
pub struct KeyIndex {
    table: KeyTable,
}

impl KeyIndex {
    /// The slot of each key.
    pub closed spec fn view(&self) -> Map<BlockKey, Handle> {
        Map::new(
            |key: BlockKey| slots_by_key(self.table).dom().contains(key_numbers(key)),
            |key: BlockKey| Handle {
                index: slots_by_key(self.table)[key_numbers(key)].0,
                generation: slots_by_key(self.table)[key_numbers(key)].1,
            },
        )
    }

    /// Every entry stands for a key.
    pub closed spec fn wf(&self) -> bool {
        forall|numbers: KeyNumbers| #[trigger]
            slots_by_key(self.table).dom().contains(numbers) ==> numbers == key_numbers(
                key_of(numbers),
            )
    }

    /// The number of keys that the index was made for, as long as none was removed.
    pub closed spec fn limit(&self) -> nat {
        key_limit(self.table)
    }

    pub fn with_capacity(capacity: usize) -> (r: KeyIndex)
        ensures
            r.wf(),
            r.limit() == limited(capacity as int),
            r@ == Map::<BlockKey, Handle>::empty(),
    {
        let limited: usize = if capacity <= TABLE_LIMIT {
            capacity
        } else {
            TABLE_LIMIT
        };
        let r = KeyIndex { table: table_with_capacity(limited) };
        proof {
            assert(r@ =~= Map::<BlockKey, Handle>::empty());
        }
        r
    }

    /// Entries that the index can hold without growing.
    pub fn capacity(&self) -> (r: usize)
        requires
            self.wf(),
        ensures
            self@.dom().finite(),
            self@.dom().len() <= r,
            self.limit() <= r,
    {
        let room: usize = table_capacity(&self.table);
        proof {
            lemma_key_count(*self);
        }
        room
    }

    /// Bytes that the index occupies: no fewer than its keys take, and those that it
    /// was made for.
    pub fn allocation_size(&self) -> (r: usize)
        requires
            self.wf(),
        ensures
            self@.dom().finite(),
            self@.dom().len() * entry_bytes() <= r,
            self.limit() * entry_bytes() <= r,
    {
        let bytes: usize = table_allocation_size(&self.table);
        proof {
            lemma_key_count(*self);
        }
        bytes
    }

    pub fn len(&self) -> (r: usize)
        requires
            self.wf(),
        ensures
            self@.dom().finite(),
            r == self@.dom().len(),
    {
        let count: usize = table_len(&self.table);
        proof {
            lemma_key_count(*self);
        }
        count
    }

    pub fn is_empty(&self) -> (r: bool)
        requires
            self.wf(),
        ensures
            r == (self@ == Map::<BlockKey, Handle>::empty()),
    {
        let n: usize = self.len();
        proof {
            if n == 0 {
                assert(self@.dom() =~= Set::<BlockKey>::empty());
                assert(self@ =~= Map::<BlockKey, Handle>::empty());
            }
        }
        n == 0
    }

    pub fn get(&self, key: BlockKey) -> (r: Option<Handle>)
        ensures
            r == if self@.dom().contains(key) {
                Some(self@[key])
            } else {
                None
            },
    {
        match table_find(&self.table, numbers_of_key(key)) {
            Some(slot) => Some(Handle { index: slot.0, generation: slot.1 }),
            None => None,
        }
    }

    pub fn contains_key(&self, key: BlockKey) -> (r: bool)
        ensures
            r == self@.dom().contains(key),
    {
        self.get(key).is_some()
    }

    pub fn insert(&mut self, key: BlockKey, handle: Handle)
        requires
            old(self).wf(),
            !old(self)@.dom().contains(key),
        ensures
            final(self).wf(),
            final(self)@ == old(self)@.insert(key, handle),
            final(self).limit() == old(self).limit(),
    {
        table_insert(&mut self.table, numbers_of_key(key), (handle.index, handle.generation));
        proof {
            assert(self@ =~= old(self)@.insert(key, handle));
            assert(key_of(key_numbers(key)) == key);
        }
    }

    pub fn remove(&mut self, key: BlockKey)
        requires
            old(self).wf(),
        ensures
            final(self).wf(),
            final(self)@ == old(self)@.remove(key),
    {
        table_remove(&mut self.table, numbers_of_key(key));
        proof {
            assert(self@ =~= old(self)@.remove(key)) by {
                assert forall|other: BlockKey| key_numbers(other) == key_numbers(
                    key,
                ) implies other == key by {
                    assert(key_of(key_numbers(other)) == other);
                    assert(key_of(key_numbers(key)) == key);
                }
            }
        }
    }

    /// Every key with its slot, in no particular order.
    pub fn entries(&self) -> (r: Vec<(BlockKey, Handle)>)
        requires
            self.wf(),
        ensures
            forall|k: int|
                0 <= k < r@.len() ==> self@.dom().contains((#[trigger] r@[k]).0)
                    && self@[r@[k].0] == r@[k].1,
            forall|key: BlockKey| #[trigger]
                self@.dom().contains(key) ==> exists|k: int|
                    0 <= k < r@.len() && (#[trigger] r@[k]).0 == key,
            forall|j: int, k: int|
                0 <= j < k < r@.len() ==> (#[trigger] r@[j]).0 != (#[trigger] r@[k]).0,
    {
        let raw = table_entries(&self.table);
        let mut r: Vec<(BlockKey, Handle)> = Vec::new();
        let mut k: usize = 0;
        while k < raw.len()
            invariant
                k <= raw@.len(),
                r@.len() == k,
                self.wf(),
                forall|j: int|
                    0 <= j < raw@.len() ==> slots_by_key(self.table).dom().contains(
                        (#[trigger] raw@[j]).0,
                    ) && slots_by_key(self.table)[raw@[j].0] == raw@[j].1,
                forall|j: int| 0 <= j < k ==> (#[trigger] r@[j]).0 == key_of(raw@[j].0),
                forall|j: int|
                    0 <= j < k ==> (#[trigger] r@[j]).1 == (Handle {
                        index: raw@[j].1.0,
                        generation: raw@[j].1.1,
                    }),
            decreases raw@.len() - k,
        {
            let (numbers, slot) = raw[k];
            let fp = if numbers.4 {
                FpSpecialization::Exact(numbers.5)
            } else {
                FpSpecialization::Dynamic
            };
            let key = BlockKey {
                address_space: numbers.0,
                pc: numbers.1,
                profile: numbers.2,
                platform: numbers.3,
                fp,
            };
            r.push((key, Handle { index: slot.0, generation: slot.1 }));
            k = k + 1;
        }
        proof {
            assert forall|j: int| 0 <= j < r@.len() implies key_numbers((#[trigger] r@[j]).0)
                == raw@[j].0 by {
                assert(slots_by_key(self.table).dom().contains(raw@[j].0));
            }
            assert forall|key: BlockKey| #[trigger] self@.dom().contains(key) implies exists|j: int|
                0 <= j < r@.len() && (#[trigger] r@[j]).0 == key by {
                let j = choose|j: int|
                    0 <= j < raw@.len() && (#[trigger] raw@[j]).0 == key_numbers(key);
                assert(key_of(key_numbers(key)) == key);
                assert(r@[j].0 == key);
            }
            assert forall|i: int, j: int| 0 <= i < j < r@.len() implies (#[trigger] r@[i]).0 != (
            #[trigger] r@[j]).0 by {
                assert(raw@[i].0 != raw@[j].0);
            }
        }
        r
    }

    /// An index with the same keys, made for `capacity`.
    pub fn with_room(&self, capacity: usize) -> (r: KeyIndex)
        requires
            self.wf(),
        ensures
            r.wf(),
            r@ == self@,
            r.limit() == limited(capacity as int),
    {
        let mut keys = KeyIndex::with_capacity(capacity);
        let entries = self.entries();
        let mut k: usize = 0;
        while k < entries.len()
            invariant
                k <= entries@.len(),
                keys.wf(),
                keys.limit() == limited(capacity as int),
                forall|j: int|
                    0 <= j < entries@.len() ==> self@.dom().contains((#[trigger] entries@[j]).0)
                        && self@[entries@[j].0] == entries@[j].1,
                forall|key: BlockKey| #[trigger]
                    self@.dom().contains(key) ==> exists|j: int|
                        0 <= j < entries@.len() && (#[trigger] entries@[j]).0 == key,
                forall|i: int, j: int|
                    0 <= i < j < entries@.len() ==> (#[trigger] entries@[i]).0 != (
                    #[trigger] entries@[j]).0,
                forall|key: BlockKey| #[trigger]
                    keys@.dom().contains(key) ==> self@.dom().contains(key) && keys@[key]
                        == self@[key] && exists|j: int|
                        0 <= j < k && (#[trigger] entries@[j]).0 == key,
                forall|j: int| 0 <= j < k ==> keys@.dom().contains((#[trigger] entries@[j]).0),
            decreases entries@.len() - k,
        {
            let (key, slot) = entries[k];
            proof {
                if keys@.dom().contains(key) {
                    let j = choose|j: int| 0 <= j < k && (#[trigger] entries@[j]).0 == key;
                    assert(entries@[j].0 != entries@[k as int].0);
                }
            }
            keys.insert(key, slot);
            k = k + 1;
        }
        proof {
            assert(keys@ =~= self@) by {
                assert forall|key: BlockKey| #[trigger] self@.dom().contains(
                    key,
                ) implies keys@.dom().contains(key) by {
                    let j = choose|j: int| 0 <= j < entries@.len() && (#[trigger] entries@[j]).0 == key;
                    assert(keys@.dom().contains(entries@[j].0));
                }
            }
        }
        keys
    }
}

/// An index has as many keys as its table has items.
proof fn lemma_key_count(index: KeyIndex)
    requires
        index.wf(),
        slots_by_key(index.table).dom().finite(),
    ensures
        index@.dom().finite(),
        index@.dom().len() == slots_by_key(index.table).dom().len(),
{
    let numbers = slots_by_key(index.table).dom();
    let keys = index@.dom();
    let key_image = numbers.map(|n: KeyNumbers| key_of(n));
    assert(key_image =~= keys) by {
        assert forall|key: BlockKey| keys.contains(key) implies key_image.contains(key) by {
            assert(key_of(key_numbers(key)) == key);
            assert(numbers.contains(key_numbers(key)));
        }
        assert forall|key: BlockKey| key_image.contains(key) implies keys.contains(key) by {
            let n = choose|n: KeyNumbers| numbers.contains(n) && key_of(n) == key;
            assert(n == key_numbers(key_of(n)));
        }
    }
    vstd::set_lib::lemma_map_size(numbers, keys, |n: KeyNumbers| key_of(n));
}

} // verus!
