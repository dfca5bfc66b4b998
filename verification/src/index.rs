//! A table from chunk addresses to numbers, kept in a `DashMap`.
use crate::chunk::ChunkKey;
use dashmap::DashMap;
use vstd::prelude::*;

verus! {

/// `dashmap::DashMap`, a hash table; opaque here.
#[verifier::external_type_specification]
#[verifier::external_body]
#[verifier::reject_recursive_types(K)]
#[verifier::reject_recursive_types(V)]
#[verifier::reject_recursive_types(S)]
pub struct ExDashMap<K, V, S>(DashMap<K, V, S>);

/// What a `DashMap` from chunk coordinates to numbers holds.
pub uninterp spec fn dash_contents(m: DashMap<(u8, u32, u32, u32), u64>) -> Map<(u8, u32, u32, u32), u64>;

/// `DashMap::new` makes a table that holds nothing.
#[verifier::external_body]
fn dash_new() -> (m: DashMap<(u8, u32, u32, u32), u64>)
    ensures
        dash_contents(m).dom().is_empty(),
{
    DashMap::new()
}

/// `DashMap::get` finds the value stored under an equal key, if there is one.
#[verifier::external_body]
fn dash_get(m: &DashMap<(u8, u32, u32, u32), u64>, key: (u8, u32, u32, u32)) -> (r: Option<u64>)
    ensures
        r == (if dash_contents(*m).contains_key(key) {
            Some(dash_contents(*m)[key])
        } else {
            None
        }),
{
    m.get(&key).map(|v| *v)
}

/// `DashMap::insert` stores the value under the key, replaces what was stored
/// there, and returns the value that it replaced.
#[verifier::external_body]
fn dash_insert(
    m: &mut DashMap<(u8, u32, u32, u32), u64>,
    key: (u8, u32, u32, u32),
    value: u64,
) -> (r: Option<u64>)
    ensures
        dash_contents(*final(m)) == dash_contents(*old(m)).insert(key, value),
        r == (if dash_contents(*old(m)).contains_key(key) {
            Some(dash_contents(*old(m))[key])
        } else {
            None
        }),
{
    m.insert(key, value)
}

/// `DashMap::remove` takes out the entry under the key and returns its value.
#[verifier::external_body]
fn dash_remove(m: &mut DashMap<(u8, u32, u32, u32), u64>, key: (u8, u32, u32, u32)) -> (r: Option<u64>)
    ensures
        dash_contents(*final(m)) == dash_contents(*old(m)).remove(key),
        r == (if dash_contents(*old(m)).contains_key(key) {
            Some(dash_contents(*old(m))[key])
        } else {
            None
        }),
{
    m.remove(&key).map(|kv| kv.1)
}

/// A table from chunk addresses to numbers.
pub struct ChunkIndex {
    table: DashMap<(u8, u32, u32, u32), u64>,
}

/// The coordinates under which a chunk's entry is stored.
pub open spec fn coords(key: ChunkKey) -> (u8, u32, u32, u32) {
    (key.lod, key.x, key.y, key.z)
}

impl View for ChunkIndex {
    type V = Map<ChunkKey, u64>;

    closed spec fn view(&self) -> Map<ChunkKey, u64> {
        Map::new(
            |k: ChunkKey| dash_contents(self.table).contains_key(coords(k)),
            |k: ChunkKey| dash_contents(self.table)[coords(k)],
        )
    }
}

impl ChunkIndex {
    /// A table without entries.
    pub fn new() -> (index: ChunkIndex)
        ensures
            index@ == Map::<ChunkKey, u64>::empty(),
    {
        let index = ChunkIndex { table: dash_new() };
        assert(index@ =~= Map::<ChunkKey, u64>::empty());
        index
    }

    /// The number stored for `key`.
    pub fn get(&self, key: ChunkKey) -> (r: Option<u64>)
        ensures
            r == (if self@.contains_key(key) {
                Some(self@[key])
            } else {
                None
            }),
    {
        dash_get(&self.table, (key.lod, key.x, key.y, key.z))
    }

    /// Stores `value` for `key`.
    pub fn insert(&mut self, key: ChunkKey, value: u64)
        ensures
            final(self)@ == old(self)@.insert(key, value),
    {
        let ghost before = self@;
        let _ = dash_insert(&mut self.table, (key.lod, key.x, key.y, key.z), value);
        assert(self@ =~= before.insert(key, value));
    }

    /// Takes out what is stored for `key`.
    pub fn remove(&mut self, key: ChunkKey)
        ensures
            final(self)@ == old(self)@.remove(key),
    {
        let ghost before = self@;
        let _ = dash_remove(&mut self.table, (key.lod, key.x, key.y, key.z));
        assert(self@ =~= before.remove(key));
    }
}

} // verus!
