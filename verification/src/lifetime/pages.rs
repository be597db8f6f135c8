//! Which units were compiled from which physical page.

use std::hash::{BuildHasher, RandomState};
use vstd::multiset::Multiset;
use vstd::prelude::*;
use super::keys::{limited, TABLE_LIMIT};
use super::registry::Handle;
use super::unit::CodePageDependency;

verus! {

/// Page, mapping generation, and index and number of the unit's handle.
pub type Association = (u64, u64, usize, u64);

/// A hash table of `hashbrown` with the associations, hashed by their page so that
/// every mapping of a page is found together.
#[verifier::external_body]
pub struct PageTable {
    entries: hashbrown::HashTable<Association>,
    hash: RandomState,
}

/// What a table holds.
pub uninterp spec fn associations(table: PageTable) -> Multiset<Association>;

/// The number of items that a table was made for, as long as none was removed.
pub uninterp spec fn page_limit(table: PageTable) -> nat;

/// `hashbrown::HashTable::with_capacity`: the table starts empty, and is made for
/// so many items. The call panics on a capacity whose size in bytes does not fit a
/// machine word, far beyond the bound.
#[verifier::external_body]
fn pages_with_capacity(capacity: usize) -> (r: PageTable)
    requires
        capacity <= TABLE_LIMIT,
    ensures
        associations(r) == Multiset::<Association>::empty(),
        page_limit(r) == capacity,
{
    PageTable {
        entries: hashbrown::HashTable::with_capacity(capacity),
        hash: RandomState::new(),
    }
}

/// `hashbrown::HashTable::capacity`: the number of items that the table can hold
/// without growing, so never less than it holds, nor less than it was made for.
/// How much more it is depends on the allocation.
#[verifier::external_body]
fn pages_capacity(table: &PageTable) -> (r: usize)
    ensures
        associations(*table).len() <= r,
        page_limit(*table) <= r,
{
    table.entries.capacity()
}

/// Bytes of an item.
pub open spec fn association_bytes() -> usize {
    core::mem::size_of::<Association>()
}

/// `hashbrown::HashTable::allocation_size`: the bytes that the table occupies. A
/// table has no fewer places than it holds items or was made for, and each takes the
/// bytes of an item. How much more it is depends on the allocation.
#[verifier::external_body]
fn pages_allocation_size(table: &PageTable) -> (r: usize)
    ensures
        associations(*table).len() * association_bytes() <= r,
        page_limit(*table) * association_bytes() <= r,
{
    table.entries.allocation_size()
}

/// `hashbrown::HashTable::len`: the number of items.
#[verifier::external_body]
fn pages_len(table: &PageTable) -> (r: usize)
    ensures
        r == associations(*table).len(),
{
    table.entries.len()
}

/// `hashbrown::HashTable::insert_unique`: adds an item beside those that are
/// there. The table never gets smaller by it.
#[verifier::external_body]
fn pages_insert(table: &mut PageTable, item: Association)
    ensures
        associations(*final(table)) == associations(*old(table)).insert(item),
        page_limit(*final(table)) == page_limit(*old(table)),
{
    let hash = &table.hash;
    table.entries.insert_unique(hash.hash_one(item.0), item, |entry| hash.hash_one(entry.0));
}

/// `hashbrown::HashTable::find_entry` and `OccupiedEntry::remove`: drops one
/// occurrence of the item, where there is one. The place of a removed item may not
/// be usable at once, so nothing is stated of the room.
#[verifier::external_body]
fn pages_remove(table: &mut PageTable, item: Association)
    ensures
        associations(*final(table)) == associations(*old(table)).remove(item),
{
    let hash = table.hash.hash_one(item.0);
    if let Ok(entry) = table.entries.find_entry(hash, |entry| *entry == item) {
        entry.remove();
    }
}

/// `hashbrown::HashTable::iter`: every item as often as it was added, in no
/// particular order.
#[verifier::external_body]
fn pages_items(table: &PageTable) -> (r: Vec<Association>)
    ensures
        r@.to_multiset() == associations(*table),
{
    table.entries.iter().copied().collect()
}

/// `hashbrown::HashTable::iter_hash` with the hash of the page: every item whose page
/// has that hash as often as it was added, so those of the page among them, in no
/// particular order. Items of other pages may come with them.
#[verifier::external_body]
fn pages_hashed(table: &PageTable, page: u64) -> (r: Vec<Association>)
    ensures
        r@.to_multiset().filter(|held: Association| held.0 == page) == associations(*table).filter(
            |held: Association| held.0 == page,
        ),
{
    table.entries.iter_hash(table.hash.hash_one(page)).copied().collect()
}

pub open spec fn association(page: CodePageDependency, unit: Handle) -> Association {
    (page.page, page.generation, unit.index, unit.generation)
}

/// The associations without those of the first `count` pages with the unit.
pub open spec fn without_pages(
    index: Multiset<Association>,
    pages: Seq<CodePageDependency>,
    unit: Handle,
    count: int,
) -> Multiset<Association>
    decreases count,
{
    if count <= 0 {
        index
    } else {
        without_pages(index, pages, unit, count - 1).remove(association(pages[count - 1], unit))
    }
}

/// The index of the units that depend on each page.
pub struct DependencyIndex {
    table: PageTable,
}

impl DependencyIndex {
    pub closed spec fn view(&self) -> Multiset<Association> {
        associations(self.table)
    }

    /// The number of associations that the index was made for, as long as none was
    /// removed.
    pub closed spec fn limit(&self) -> nat {
        page_limit(self.table)
    }

    pub fn new(capacity: usize) -> (r: DependencyIndex)
        ensures
            r@ == Multiset::<Association>::empty(),
            r.limit() == limited(capacity as int),
    {
        let limited: usize = if capacity <= TABLE_LIMIT {
            capacity
        } else {
            TABLE_LIMIT
        };
        DependencyIndex { table: pages_with_capacity(limited) }
    }

    /// Associations that the index can hold without growing.
    pub fn capacity(&self) -> (r: usize)
        ensures
            self@.len() <= r,
            self.limit() <= r,
    {
        pages_capacity(&self.table)
    }

    /// Bytes that the index occupies: no fewer than its associations take, and those
    /// that it was made for.
    pub fn allocation_size(&self) -> (r: usize)
        ensures
            self@.len() * association_bytes() <= r,
            self.limit() * association_bytes() <= r,
    {
        pages_allocation_size(&self.table)
    }

    pub fn len(&self) -> (r: usize)
        ensures
            r == self@.len(),
    {
        pages_len(&self.table)
    }

    pub fn insert(&mut self, page: CodePageDependency, unit: Handle)
        ensures
            final(self)@ == old(self)@.insert(association(page, unit)),
            final(self).limit() == old(self).limit(),
    {
        pages_insert(&mut self.table, (page.page, page.generation, unit.index, unit.generation));
    }

    pub fn remove(&mut self, page: CodePageDependency, unit: Handle)
        ensures
            final(self)@ == old(self)@.remove(association(page, unit)),
    {
        pages_remove(&mut self.table, (page.page, page.generation, unit.index, unit.generation));
    }

    /// What depends on a page, under whatever mapping: each association once, in no order.
    pub fn for_page(&self, page: u64) -> (r: Vec<Association>)
        ensures
            r@.to_multiset() == self@.filter(|held: Association| held.0 == page),
    {
        let items = pages_hashed(&self.table, page);
        let ghost wanted = |held: Association| held.0 == page;
        let mut r: Vec<Association> = Vec::new();
        let mut k: usize = 0;
        proof {
            r@.to_multiset_ensures();
            assert(items@.take(0) =~= r@);
            assert(r@.to_multiset() =~= items@.take(0).to_multiset().filter(wanted));
        }
        while k < items.len()
            invariant
                k <= items@.len(),
                wanted == (|held: Association| held.0 == page),
                r@.to_multiset() == items@.take(k as int).to_multiset().filter(wanted),
            decreases items@.len() - k,
        {
            let item = items[k];
            let ghost before = r@;
            let ghost seen = items@.take(k as int);
            if item.0 == page {
                r.push(item);
            }
            proof {
                before.to_multiset_ensures();
                seen.to_multiset_ensures();
                assert(items@.take(k + 1) =~= seen.push(item));
                assert(r@.to_multiset() =~= seen.to_multiset().insert(item).filter(wanted));
            }
            k = k + 1;
        }
        proof {
            assert(items@.take(k as int) =~= items@);
        }
        r
    }

    /// An index with the same associations and room for more.
    pub fn with_room(&self, capacity: usize) -> (r: DependencyIndex)
        ensures
            r@ == self@,
            r.limit() == limited(capacity as int),
    {
        let items = pages_items(&self.table);
        let mut r = DependencyIndex::new(capacity);
        proof {
            items@.to_multiset_ensures();
            assert(items@.take(0) =~= Seq::<Association>::empty());
            items@.take(0).to_multiset_ensures();
            assert(items@.take(0).to_multiset().len() == 0);
            assert(items@.take(0).to_multiset() =~= Multiset::<Association>::empty());
        }
        let mut k: usize = 0;
        while k < items.len()
            invariant
                k <= items@.len(),
                r@ == items@.take(k as int).to_multiset(),
                r.limit() == limited(capacity as int),
            decreases items@.len() - k,
        {
            pages_insert(&mut r.table, items[k]);
            proof {
                items@.take(k as int).to_multiset_ensures();
                assert(items@.take(k + 1) =~= items@.take(k as int).push(items@[k as int]));
            }
            k = k + 1;
        }
        proof {
            assert(items@.take(items@.len() as int) =~= items@);
        }
        r
    }
}

} // verus!
