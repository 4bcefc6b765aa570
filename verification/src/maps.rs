//! Trusted interface to dashmap's concurrent hash map, which backs the chunk
//! cache, the spawn-chunk set and the watcher table.
//!
//! Each wrapper states, over an abstract map of the container's contents,
//! what the dashmap operation it calls does. The library works through
//! exclusive references, under which dashmap's per-entry atomic operations
//! coincide with plain map updates.

use vstd::prelude::*;
use crate::chunk::{ChunkData, ChunkDataView};
use crate::position::ChunkCoord;

verus! {

#[verifier::external_type_specification]
#[verifier::external_body]
#[verifier::reject_recursive_types(K)]
#[verifier::reject_recursive_types(V)]
#[verifier::reject_recursive_types(S)]
pub struct ExDashMap<K, V, S>(dashmap::DashMap<K, V, S>);

/// Abstract contents of a dashmap holding chunk records keyed by coordinate.
pub uninterp spec fn chunk_map_view(m: dashmap::DashMap<ChunkCoord, ChunkData>) -> Map<
    ChunkCoord,
    ChunkDataView,
>;

/// Abstract contents of a dashmap holding watcher counts keyed by coordinate.
pub uninterp spec fn watcher_map_view(m: dashmap::DashMap<ChunkCoord, usize>) -> Map<
    ChunkCoord,
    usize,
>;

/// The contents of a chunk map with no entries.
pub open spec fn chunk_map_empty() -> Map<ChunkCoord, ChunkDataView> {
    Map::empty()
}

/// The contents of a watcher map with no entries.
pub open spec fn watcher_map_empty() -> Map<ChunkCoord, usize> {
    Map::empty()
}

/// Relies on dashmap::DashMap::new: a freshly created map holds no entries.
#[verifier::external_body]
pub(crate) fn chunk_map_new() -> (r: dashmap::DashMap<ChunkCoord, ChunkData>)
    ensures
        chunk_map_view(r) == chunk_map_empty(),
{
    dashmap::DashMap::new()
}

/// Relies on dashmap::DashMap::get: returns the value stored under the key,
/// if any.
#[verifier::external_body]
pub(crate) fn chunk_map_get(m: &dashmap::DashMap<ChunkCoord, ChunkData>, k: &ChunkCoord) -> (r:
    Option<ChunkData>)
    ensures
        match r {
            Some(c) => chunk_map_view(*m).dom().contains(*k) && c@ == chunk_map_view(*m)[*k],
            None => !chunk_map_view(*m).dom().contains(*k),
        },
{
    m.get(k).map(|e| e.value().clone())
}

/// Relies on dashmap::DashMap::insert: stores the value under the key,
/// replacing any previous entry.
#[verifier::external_body]
pub(crate) fn chunk_map_insert(
    m: &mut dashmap::DashMap<ChunkCoord, ChunkData>,
    k: ChunkCoord,
    v: ChunkData,
)
    ensures
        chunk_map_view(*final(m)) == chunk_map_view(*old(m)).insert(k, v@),
{
    m.insert(k, v);
}

/// Relies on dashmap's entry API (DashMap::entry and Entry::or_insert):
/// atomically returns the entry already stored under the key, or inserts the
/// given value and returns it.
#[verifier::external_body]
pub(crate) fn chunk_map_or_insert(
    m: &mut dashmap::DashMap<ChunkCoord, ChunkData>,
    k: ChunkCoord,
    v: ChunkData,
) -> (r: ChunkData)
    ensures
        ({
            let pre = chunk_map_view(*old(m));
            let post = chunk_map_view(*final(m));
            if pre.dom().contains(k) {
                post == pre && r@ == pre[k]
            } else {
                post == pre.insert(k, v@) && r@ == v@
            }
        }),
{
    m.entry(k).or_insert(v).value().clone()
}

/// Relies on dashmap::DashMap::remove: removes and returns the entry stored
/// under the key, if any.
#[verifier::external_body]
pub(crate) fn chunk_map_remove(m: &mut dashmap::DashMap<ChunkCoord, ChunkData>, k: &ChunkCoord) -> (r:
    Option<ChunkData>)
    ensures
        chunk_map_view(*final(m)) == chunk_map_view(*old(m)).remove(*k),
        match r {
            Some(c) => chunk_map_view(*old(m)).dom().contains(*k) && c@ == chunk_map_view(
                *old(m),
            )[*k],
            None => !chunk_map_view(*old(m)).dom().contains(*k),
        },
{
    m.remove(k).map(|p| p.1)
}

/// Relies on dashmap::DashMap::len: the number of stored entries.
#[verifier::external_body]
pub(crate) fn chunk_map_len(m: &dashmap::DashMap<ChunkCoord, ChunkData>) -> (r: usize)
    ensures
        r == chunk_map_view(*m).dom().len(),
{
    m.len()
}

/// Relies on dashmap::DashMap::capacity: how many entries the map can store
/// without reallocating, never fewer than it currently stores.
#[verifier::external_body]
pub(crate) fn chunk_map_capacity(m: &dashmap::DashMap<ChunkCoord, ChunkData>) -> (r: usize)
    ensures
        r >= chunk_map_view(*m).dom().len(),
{
    m.capacity()
}

/// Relies on dashmap::DashMap::shrink_to_fit: reduces slack storage without
/// touching the entries.
#[verifier::external_body]
pub(crate) fn chunk_map_shrink_to_fit(m: &mut dashmap::DashMap<ChunkCoord, ChunkData>)
    ensures
        chunk_map_view(*final(m)) == chunk_map_view(*old(m)),
{
    m.shrink_to_fit();
}

/// Relies on dashmap::DashMap::clear: removes every entry.
#[verifier::external_body]
pub(crate) fn chunk_map_clear(m: &mut dashmap::DashMap<ChunkCoord, ChunkData>)
    ensures
        chunk_map_view(*final(m)) == chunk_map_empty(),
{
    m.clear();
}

/// Relies on dashmap::DashMap::iter: yields every entry exactly once, in an
/// unspecified order.
#[verifier::external_body]
pub(crate) fn chunk_map_entries(m: &dashmap::DashMap<ChunkCoord, ChunkData>) -> (r: Vec<
    (ChunkCoord, ChunkData),
>)
    ensures
        forall|i: int, j: int| 0 <= i < j < r@.len() ==> r@[i].0 != r@[j].0,
        forall|i: int|
            0 <= i < r@.len() ==> chunk_map_view(*m).dom().contains(#[trigger] r@[i].0)
                && r@[i].1@ == chunk_map_view(*m)[r@[i].0],
        forall|k: ChunkCoord|
            chunk_map_view(*m).dom().contains(k) ==> exists|i: int|
                0 <= i < r@.len() && #[trigger] r@[i].0 == k,
{
    m.iter().map(|e| (*e.key(), e.value().clone())).collect()
}

/// Relies on dashmap::DashMap::new: a freshly created map holds no entries.
#[verifier::external_body]
pub(crate) fn watcher_map_new() -> (r: dashmap::DashMap<ChunkCoord, usize>)
    ensures
        watcher_map_view(r) == watcher_map_empty(),
{
    dashmap::DashMap::new()
}

/// Relies on dashmap::DashMap::get: returns the count stored under the key,
/// if any.
#[verifier::external_body]
pub(crate) fn watcher_map_get(m: &dashmap::DashMap<ChunkCoord, usize>, k: &ChunkCoord) -> (r:
    Option<usize>)
    ensures
        match r {
            Some(c) => watcher_map_view(*m).dom().contains(*k) && c == watcher_map_view(*m)[*k],
            None => !watcher_map_view(*m).dom().contains(*k),
        },
{
    m.get(k).map(|e| *e.value())
}

/// Relies on dashmap::DashMap::insert: stores the count under the key,
/// replacing any previous entry.
#[verifier::external_body]
pub(crate) fn watcher_map_insert(
    m: &mut dashmap::DashMap<ChunkCoord, usize>,
    k: ChunkCoord,
    v: usize,
)
    ensures
        watcher_map_view(*final(m)) == watcher_map_view(*old(m)).insert(k, v),
{
    m.insert(k, v);
}

/// Relies on dashmap::DashMap::remove: removes and returns the entry stored
/// under the key, if any.
#[verifier::external_body]
pub(crate) fn watcher_map_remove(m: &mut dashmap::DashMap<ChunkCoord, usize>, k: &ChunkCoord) -> (r:
    Option<usize>)
    ensures
        watcher_map_view(*final(m)) == watcher_map_view(*old(m)).remove(*k),
        match r {
            Some(c) => watcher_map_view(*old(m)).dom().contains(*k) && c == watcher_map_view(
                *old(m),
            )[*k],
            None => !watcher_map_view(*old(m)).dom().contains(*k),
        },
{
    m.remove(k).map(|p| p.1)
}

/// Relies on dashmap::DashMap::len: the number of stored entries.
#[verifier::external_body]
pub(crate) fn watcher_map_len(m: &dashmap::DashMap<ChunkCoord, usize>) -> (r: usize)
    ensures
        r == watcher_map_view(*m).dom().len(),
{
    m.len()
}

/// Relies on dashmap::DashMap::capacity: how many entries the map can store
/// without reallocating, never fewer than it currently stores.
#[verifier::external_body]
pub(crate) fn watcher_map_capacity(m: &dashmap::DashMap<ChunkCoord, usize>) -> (r: usize)
    ensures
        r >= watcher_map_view(*m).dom().len(),
{
    m.capacity()
}

/// Relies on dashmap::DashMap::shrink_to_fit: reduces slack storage without
/// touching the entries.
#[verifier::external_body]
pub(crate) fn watcher_map_shrink_to_fit(m: &mut dashmap::DashMap<ChunkCoord, usize>)
    ensures
        watcher_map_view(*final(m)) == watcher_map_view(*old(m)),
{
    m.shrink_to_fit();
}

/// Relies on dashmap::DashMap::clear: removes every entry.
#[verifier::external_body]
pub(crate) fn watcher_map_clear(m: &mut dashmap::DashMap<ChunkCoord, usize>)
    ensures
        watcher_map_view(*final(m)) == watcher_map_empty(),
{
    m.clear();
}

/// Relies on dashmap::DashMap::iter: yields every entry exactly once, in an
/// unspecified order.
#[verifier::external_body]
pub(crate) fn watcher_map_entries(m: &dashmap::DashMap<ChunkCoord, usize>) -> (r: Vec<
    (ChunkCoord, usize),
>)
    ensures
        forall|i: int, j: int| 0 <= i < j < r@.len() ==> r@[i].0 != r@[j].0,
        forall|i: int|
            0 <= i < r@.len() ==> watcher_map_view(*m).dom().contains(#[trigger] r@[i].0)
                && r@[i].1 == watcher_map_view(*m)[r@[i].0],
        forall|k: ChunkCoord|
            watcher_map_view(*m).dom().contains(k) ==> exists|i: int|
                0 <= i < r@.len() && #[trigger] r@[i].0 == k,
{
    m.iter().map(|e| (*e.key(), *e.value())).collect()
}

} // verus!
