//! The storage backend interface: persists and retrieves chunk records,
//! tracks a watch-set of coordinates in active use, and carries the world
//! metadata channel. Multiple on-disk formats satisfy this one contract; the
//! level relies on nothing beyond what is stated here.

use vstd::prelude::*;
use crate::chunk::{ChunkData, ChunkDataView};
use crate::position::ChunkCoord;

verus! {

/// Why reading one chunk from storage failed.
#[derive(Clone, Copy, PartialEq, Eq, Structural, Debug)]
pub enum ChunkReadError {
    /// No record exists for the chunk; a normal signal to generate it.
    ChunkNotExist,
    /// A record exists but holds no fully generated chunk; also a signal to
    /// generate.
    ChunkNotGenerated,
    /// Any other storage fault while reading (corruption, device error).
    StorageFault,
}

/// Why writing to storage failed.
#[derive(Clone, Copy, PartialEq, Eq, Structural, Debug)]
pub enum ChunkWriteError {
    /// A storage fault while writing; the write is reported, not retried.
    StorageFault,
}

/// One per-coordinate outcome of a batched read.
pub enum LoadedData {
    /// The chunk was found in storage and loaded.
    Loaded(ChunkData),
    /// Storage confirms that no record exists for the coordinate.
    Missing(ChunkCoord),
    /// Reading the coordinate failed for the carried reason.
    Error((ChunkCoord, ChunkReadError)),
}

/// World root metadata persisted through the storage backend at shutdown.
#[derive(Clone, Copy, PartialEq, Eq, Structural, Debug)]
pub struct LevelData {
    pub seed: i64,
    pub spawn_x: i32,
    pub spawn_y: i32,
    pub spawn_z: i32,
}

impl LevelData {
    /// Fresh metadata for a world that has no saved root record yet.
    pub fn new(seed: i64) -> (r: LevelData)
        ensures
            r.seed == seed,
            r.spawn_x == 0 && r.spawn_y == 0 && r.spawn_z == 0,
    {
        LevelData { seed, spawn_x: 0, spawn_y: 0, spawn_z: 0 }
    }
}

/// Whether a batched-read outcome is a correct answer for the coordinate `c`
/// against the records `stored`: a record loads as stored (or reports a read
/// error), an absent record is reported missing (or as a read error).
pub open spec fn load_result_matches(
    stored: Map<ChunkCoord, ChunkDataView>,
    c: ChunkCoord,
    r: LoadedData,
) -> bool {
    match r {
        LoadedData::Loaded(d) => stored.dom().contains(c) && d@ == stored[c],
        LoadedData::Missing(p) => p == c && !stored.dom().contains(c),
        LoadedData::Error(p) => p.0 == c,
    }
}

/// Whether a batch of records to save holds the coordinate as a key.
pub open spec fn batch_has_key(s: Seq<(ChunkCoord, ChunkData)>, c: ChunkCoord) -> bool {
    exists|i: int| 0 <= i < s.len() && s[i].0 == c
}

/// Whether two record maps agree at one coordinate: the same membership and,
/// when present, the same record.
pub open spec fn same_record_at(
    a: Map<ChunkCoord, ChunkDataView>,
    b: Map<ChunkCoord, ChunkDataView>,
    c: ChunkCoord,
) -> bool {
    (a.dom().contains(c) <==> b.dom().contains(c)) && (a.dom().contains(c) ==> a[c] == b[c])
}

/// The storage backend: persists and retrieves chunk records. Implementors
/// describe their record store, watch-set and metadata record through the
/// three abstraction functions and must meet every operation's contract.
pub trait ChunkIO: Sized {
    /// The records the backend currently holds, by coordinate.
    spec fn stored(&self) -> Map<ChunkCoord, ChunkDataView>;

    /// The coordinates currently marked as actively watched.
    spec fn watched(&self) -> Set<ChunkCoord>;

    /// The world metadata record, if one has been written.
    spec fn metadata(&self) -> Option<LevelData>;

    /// Reads the given coordinates as one batch: exactly one outcome for each
    /// requested coordinate, in request order. A coordinate with a record
    /// either loads that record or reports a read error; one without a record
    /// either reports it missing or reports a read error. Reading changes
    /// nothing.
    fn fetch_chunks(&mut self, coords: &[ChunkCoord]) -> (r: Vec<LoadedData>)
        ensures
            final(self).stored() == old(self).stored(),
            final(self).watched() == old(self).watched(),
            final(self).metadata() == old(self).metadata(),
            r@.len() == coords@.len(),
            forall|i: int|
                0 <= i < r@.len() ==> load_result_matches(
                    old(self).stored(),
                    coords@[i],
                    #[trigger] r@[i],
                ),
    ;

    /// Writes the given records as one batch, best-effort; the keys must be
    /// pairwise distinct. On success every record is stored under its
    /// coordinate. On failure each given coordinate independently holds
    /// either its new record or what it held before. No other coordinate, the
    /// watch-set and the metadata ever change.
    fn save_chunks(&mut self, chunks: Vec<(ChunkCoord, ChunkData)>) -> (r: Result<
        (),
        ChunkWriteError,
    >)
        requires
            forall|i: int, j: int|
                0 <= i < j < chunks@.len() ==> (#[trigger] chunks@[i]).0 != (#[trigger] chunks@[j]).0,
        ensures
            final(self).watched() == old(self).watched(),
            final(self).metadata() == old(self).metadata(),
            forall|c: ChunkCoord|
                !batch_has_key(chunks@, c) ==> same_record_at(
                    old(self).stored(),
                    final(self).stored(),
                    c,
                ),
            forall|i: int|
                0 <= i < chunks@.len() ==> (final(self).stored().dom().contains(
                    (#[trigger] chunks@[i]).0,
                ) && final(self).stored()[chunks@[i].0] == chunks@[i].1@) || same_record_at(
                    old(self).stored(),
                    final(self).stored(),
                    chunks@[i].0,
                ),
            r is Ok ==> forall|i: int|
                0 <= i < chunks@.len() ==> final(self).stored().dom().contains(
                    (#[trigger] chunks@[i]).0,
                ) && final(self).stored()[chunks@[i].0] == chunks@[i].1@,
    ;

    /// Marks the coordinates as actively of interest, so the backend avoids
    /// reclaiming resources for records in use. Advisory: the records and the
    /// metadata do not change.
    fn watch_chunks(&mut self, coords: &[ChunkCoord])
        ensures
            final(self).stored() == old(self).stored(),
            final(self).metadata() == old(self).metadata(),
            final(self).watched() == old(self).watched().union(coords@.to_set()),
    ;

    /// Withdraws the active-interest mark from the coordinates.
    fn unwatch_chunks(&mut self, coords: &[ChunkCoord])
        ensures
            final(self).stored() == old(self).stored(),
            final(self).metadata() == old(self).metadata(),
            final(self).watched() == old(self).watched().difference(coords@.to_set()),
    ;

    /// Empties the watch-set, as part of shutdown.
    fn clear_watched_chunks(&mut self)
        ensures
            final(self).stored() == old(self).stored(),
            final(self).metadata() == old(self).metadata(),
            final(self).watched() == Set::<ChunkCoord>::empty(),
    ;

    /// Blocks until all previously accepted asynchronous work has completed;
    /// used only during shutdown. Completion changes no observable record.
    fn block_and_await_ongoing_tasks(&mut self)
        ensures
            final(self).stored() == old(self).stored(),
            final(self).watched() == old(self).watched(),
            final(self).metadata() == old(self).metadata(),
    ;

    /// Maintenance hook: compacts the backend's own bookkeeping without
    /// changing any observable record.
    fn clean_up_log(&mut self)
        ensures
            final(self).stored() == old(self).stored(),
            final(self).watched() == old(self).watched(),
            final(self).metadata() == old(self).metadata(),
    ;

    /// Persists the world root metadata. On success the metadata record holds
    /// the given value; on failure it is unchanged. Chunk records and the
    /// watch-set never change.
    fn write_world_info(&mut self, info: LevelData) -> (r: Result<(), ChunkWriteError>)
        ensures
            final(self).stored() == old(self).stored(),
            final(self).watched() == old(self).watched(),
            r is Ok ==> final(self).metadata() == Some(info),
            r is Err ==> final(self).metadata() == old(self).metadata(),
    ;
}

} // verus!
