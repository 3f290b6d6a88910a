//! The durable table: an ordered map from byte keys to byte values, kept in
//! an `ic_stable_structures` B-tree over a byte-addressable memory region.
//!
//! The table's contents are modelled as the sequence of its entries in
//! ascending key order, named by `store_entries`; every method's contract
//! speaks of that sequence. Verus does not read the B-tree itself: these
//! wrappers are the trusted boundary, each relying on the behaviour that the
//! crate's source documents.

use vstd::prelude::*;

use crate::order::{entries_sorted, seq_lookup, sorted_del, sorted_put};

verus! {

/// A handle on one durable region holding one ordered table.
///
/// The region is a slice of the process's default memory — the canister's
/// stable memory on the wasm target, an in-process buffer elsewhere — so the
/// table's contents survive restarts wherever the platform persists that
/// memory. The collection itself is an outside type that Verus cannot read,
/// so the whole struct is opaque and its contents are named by
/// `store_entries`.
#[verifier::external_body]
pub struct StableStore {
    map: ic_stable_structures::BTreeMap<
        Vec<u8>,
        Vec<u8>,
        ic_stable_structures::memory_manager::VirtualMemory<
            ic_stable_structures::DefaultMemoryImpl,
        >,
    >,
}

/// The entries of the table, in ascending key order.
pub uninterp spec fn store_entries(s: StableStore) -> Seq<(Seq<u8>, Seq<u8>)>;

impl StableStore {
    /// Relies on `MemoryManager::init` and `BTreeMap::init`: the handle
    /// attaches to the named region of the default memory, loading a table
    /// already persisted there and creating an empty one where the region is
    /// fresh. Whatever was persisted, a B-tree's entries stand in strictly
    /// ascending key order, which is all this contract claims; the registry
    /// re-checks the record-level invariant by scanning. Distinct region
    /// identifiers never alias, and each region must have at most one live
    /// handle. The identifier 255 is reserved by the memory manager as its
    /// unallocated-bucket marker and is asserted against, so it is excluded
    /// here: this library's verified functions do not panic.
    #[verifier::external_body]
    pub fn init(region_id: u8) -> (r: StableStore)
        requires
            region_id < 255,
        ensures
            entries_sorted(store_entries(r)),
    {
        let manager = ic_stable_structures::memory_manager::MemoryManager::init(
            ic_stable_structures::DefaultMemoryImpl::default(),
        );
        let region = manager.get(ic_stable_structures::memory_manager::MemoryId::new(region_id));
        StableStore { map: ic_stable_structures::BTreeMap::init(region) }
    }

    /// Relies on `BTreeMap::get`: returns the value stored under the key,
    /// with no side effect.
    #[verifier::external_body]
    pub fn fetch(&self, key: &Vec<u8>) -> (r: Option<Vec<u8>>)
        ensures
            r.deep_view() == seq_lookup(store_entries(*self), key@),
    {
        self.map.get(key)
    }

    /// Relies on `BTreeMap::insert`: writes the entry at its ordered place,
    /// replacing and returning the previous value if one was there.
    #[verifier::external_body]
    pub fn put(&mut self, key: Vec<u8>, value: Vec<u8>) -> (r: Option<Vec<u8>>)
        ensures
            store_entries(*final(self)) == sorted_put(store_entries(*old(self)), key@, value@),
            r.deep_view() == seq_lookup(store_entries(*old(self)), key@),
    {
        self.map.insert(key, value)
    }

    /// Relies on `BTreeMap::remove`: removes the entry under the key and
    /// returns its value if one was there.
    #[verifier::external_body]
    pub fn del(&mut self, key: &Vec<u8>) -> (r: Option<Vec<u8>>)
        ensures
            store_entries(*final(self)) == sorted_del(store_entries(*old(self)), key@),
            r.deep_view() == seq_lookup(store_entries(*old(self)), key@),
    {
        self.map.remove(key)
    }

    /// Relies on `BTreeMap::len`: the number of entries, kept by the tree
    /// itself rather than counted by a scan.
    #[verifier::external_body]
    pub fn count(&self) -> (r: u64)
        ensures
            r as nat == store_entries(*self).len(),
    {
        self.map.len()
    }

    /// Relies on `BTreeMap::iter`: a fresh traversal of all entries in
    /// ascending key order.
    #[verifier::external_body]
    pub fn entries(&self) -> (r: Vec<(Vec<u8>, Vec<u8>)>)
        ensures
            r@.len() == store_entries(*self).len(),
            forall|i: int|
                0 <= i < r@.len() ==> (#[trigger] r@[i]).0@ == store_entries(*self)[i].0 && r@[i].1@
                    == store_entries(*self)[i].1,
    {
        self.map.iter().map(|e| (e.key().clone(), e.value())).collect()
    }
}

} // verus!
