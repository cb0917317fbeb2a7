//! Hash tables of the allocator's metadata. They are hashbrown tables with the
//! Fx hasher; each is held in a struct of its own so that the tables'
//! contents can be named in contracts.

use vstd::prelude::*;

use core::hash::BuildHasherDefault;
use rustc_hash::FxHasher;

use crate::metadata::thread_meta::large_allocator::large_meta::LargeMeta;
use crate::metadata::thread_meta::small_allocator::small_meta::SmallMeta;

verus! {

/// A hashbrown table from `u64` to `u64`.
#[verifier::external_body]
pub struct U64Map {
    map: hashbrown::HashMap<u64, u64, BuildHasherDefault<FxHasher>>,
}

/// The entries of a `U64Map`.
pub uninterp spec fn u64_map_contents(m: U64Map) -> Map<u64, u64>;

impl U64Map {
    /// `hashbrown::HashMap::with_capacity_and_hasher`: an empty table with room
    /// reserved for `capacity` entries. hashbrown panics when the table's size
    /// for `capacity` overflows, so `capacity` is kept small.
    #[verifier::external_body]
    pub(crate) fn with_capacity(capacity: u64) -> (table: U64Map)
        requires
            capacity <= 0x1_0000,
        ensures
            u64_map_contents(table) =~= Map::empty(),
    {
        U64Map {
            map: hashbrown::HashMap::with_capacity_and_hasher(
                capacity as usize,
                BuildHasherDefault::<FxHasher>::default(),
            ),
        }
    }

    /// `hashbrown::HashMap::insert`: sets the entry of `k` to `v` and returns
    /// the value it replaced, if any. Growing the table takes memory; when
    /// none can be had the process stops, which no clause states.
    #[verifier::external_body]
    pub(crate) fn insert(&mut self, k: u64, v: u64) -> (r: Option<u64>)
        ensures
            u64_map_contents(*final(self)) == u64_map_contents(*old(self)).insert(k, v),
            r == u64_map_contents(*old(self)).get(k),
    {
        self.map.insert(k, v)
    }

    /// `hashbrown::HashMap::get`: the value of `k`, if it has an entry.
    #[verifier::external_body]
    pub(crate) fn get(&self, k: u64) -> (r: Option<u64>)
        ensures
            r == u64_map_contents(*self).get(k),
    {
        self.map.get(&k).copied()
    }

    /// `hashbrown::HashMap::remove`: drops the entry of `k` and returns its
    /// value, if it had one.
    #[verifier::external_body]
    pub(crate) fn remove(&mut self, k: u64) -> (r: Option<u64>)
        ensures
            u64_map_contents(*final(self)) == u64_map_contents(*old(self)).remove(k),
            r == u64_map_contents(*old(self)).get(k),
    {
        self.map.remove(&k)
    }
}

/// A hashbrown table from addresses to the metadata of small allocations.
#[verifier::external_body]
pub struct SmallMetaMap {
    map: hashbrown::HashMap<u64, SmallMeta, BuildHasherDefault<FxHasher>>,
}

/// The entries of a `SmallMetaMap`.
pub uninterp spec fn small_meta_map_contents(m: SmallMetaMap) -> Map<u64, SmallMeta>;

impl SmallMetaMap {
    /// `hashbrown::HashMap::with_capacity_and_hasher`: an empty table with room
    /// reserved for `capacity` entries. hashbrown panics when the table's size
    /// for `capacity` overflows, so `capacity` is kept small.
    #[verifier::external_body]
    pub(crate) fn with_capacity(capacity: u64) -> (table: SmallMetaMap)
        requires
            capacity <= 0x1_0000,
        ensures
            small_meta_map_contents(table) =~= Map::empty(),
    {
        SmallMetaMap {
            map: hashbrown::HashMap::with_capacity_and_hasher(
                capacity as usize,
                BuildHasherDefault::<FxHasher>::default(),
            ),
        }
    }

    /// `hashbrown::HashMap::insert`: sets the entry of `k` to `v` and returns
    /// the value it replaced, if any. Growing the table takes memory; when
    /// none can be had the process stops, which no clause states.
    #[verifier::external_body]
    pub(crate) fn insert(&mut self, k: u64, v: SmallMeta) -> (r: Option<SmallMeta>)
        ensures
            small_meta_map_contents(*final(self)) == small_meta_map_contents(*old(self)).insert(k, v),
            r == small_meta_map_contents(*old(self)).get(k),
    {
        self.map.insert(k, v)
    }

    /// `hashbrown::HashMap::get`: the value of `k`, if it has an entry.
    #[verifier::external_body]
    pub(crate) fn get(&self, k: u64) -> (r: Option<SmallMeta>)
        ensures
            r == small_meta_map_contents(*self).get(k),
    {
        self.map.get(&k).copied()
    }

    /// `hashbrown::HashMap::remove`: drops the entry of `k` and returns its
    /// value, if it had one.
    #[verifier::external_body]
    pub(crate) fn remove(&mut self, k: u64) -> (r: Option<SmallMeta>)
        ensures
            small_meta_map_contents(*final(self)) == small_meta_map_contents(*old(self)).remove(k),
            r == small_meta_map_contents(*old(self)).get(k),
    {
        self.map.remove(&k)
    }
}

/// A hashbrown table from addresses to the metadata of large allocations.
#[verifier::external_body]
pub struct LargeMetaMap {
    map: hashbrown::HashMap<u64, LargeMeta, BuildHasherDefault<FxHasher>>,
}

/// The entries of a `LargeMetaMap`.
pub uninterp spec fn large_meta_map_contents(m: LargeMetaMap) -> Map<u64, LargeMeta>;

impl LargeMetaMap {
    /// `hashbrown::HashMap::with_capacity_and_hasher`: an empty table with room
    /// reserved for `capacity` entries. hashbrown panics when the table's size
    /// for `capacity` overflows, so `capacity` is kept small.
    #[verifier::external_body]
    pub(crate) fn with_capacity(capacity: u64) -> (table: LargeMetaMap)
        requires
            capacity <= 0x1_0000,
        ensures
            large_meta_map_contents(table) =~= Map::empty(),
    {
        LargeMetaMap {
            map: hashbrown::HashMap::with_capacity_and_hasher(
                capacity as usize,
                BuildHasherDefault::<FxHasher>::default(),
            ),
        }
    }

    /// `hashbrown::HashMap::insert`: sets the entry of `k` to `v` and returns
    /// the value it replaced, if any. Growing the table takes memory; when
    /// none can be had the process stops, which no clause states.
    #[verifier::external_body]
    pub(crate) fn insert(&mut self, k: u64, v: LargeMeta) -> (r: Option<LargeMeta>)
        ensures
            large_meta_map_contents(*final(self)) == large_meta_map_contents(*old(self)).insert(k, v),
            r == large_meta_map_contents(*old(self)).get(k),
    {
        self.map.insert(k, v)
    }

    /// `hashbrown::HashMap::get`: the value of `k`, if it has an entry.
    #[verifier::external_body]
    pub(crate) fn get(&self, k: u64) -> (r: Option<LargeMeta>)
        ensures
            r == large_meta_map_contents(*self).get(k),
    {
        self.map.get(&k).copied()
    }

    /// `hashbrown::HashMap::remove`: drops the entry of `k` and returns its
    /// value, if it had one.
    #[verifier::external_body]
    pub(crate) fn remove(&mut self, k: u64) -> (r: Option<LargeMeta>)
        ensures
            large_meta_map_contents(*final(self)) == large_meta_map_contents(*old(self)).remove(k),
            r == large_meta_map_contents(*old(self)).get(k),
    {
        self.map.remove(&k)
    }
}

}
