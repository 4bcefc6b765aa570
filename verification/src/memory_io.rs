//! An in-memory storage backend: an append-only log of chunk records where
//! the newest record for a coordinate wins. It satisfies the full storage
//! contract and serves as the reference backend; the on-disk formats are
//! external collaborators behind the same interface. Reads and writes can be
//! made to fail on demand, to exercise the fault paths.

use vstd::prelude::*;
use crate::chunk::{ChunkData, ChunkDataView};
use crate::io::{
    batch_has_key, load_result_matches, same_record_at, ChunkIO, ChunkReadError, ChunkWriteError,
    LevelData, LoadedData,
};
use crate::position::ChunkCoord;

verus! {

/// Whether the log holds a record for the coordinate.
pub open spec fn log_has(s: Seq<(ChunkCoord, ChunkData)>, c: ChunkCoord) -> bool
    decreases s.len(),
{
    if s.len() == 0 {
        false
    } else if s.last().0 == c {
        true
    } else {
        log_has(s.drop_last(), c)
    }
}

/// The newest record the log holds for the coordinate.
pub open spec fn log_newest(s: Seq<(ChunkCoord, ChunkData)>, c: ChunkCoord) -> ChunkDataView
    decreases s.len(),
{
    if s.len() == 0 {
        arbitrary()
    } else if s.last().0 == c {
        s.last().1@
    } else {
        log_newest(s.drop_last(), c)
    }
}

/// The in-memory backend.
pub struct MemoryChunkIO {
    records: Vec<(ChunkCoord, ChunkData)>,
    meta: Option<LevelData>,
    watched_set: Ghost<Set<ChunkCoord>>,
    /// Coordinates whose reads report a storage fault.
    pub fail_reads: Vec<ChunkCoord>,
    /// Whether writes report a storage fault (and write nothing).
    pub fail_writes: bool,
}

impl MemoryChunkIO {
    /// A fresh, empty backend.
    pub fn new() -> (r: MemoryChunkIO)
        ensures
            r.stored() == Map::<ChunkCoord, ChunkDataView>::empty(),
            r.watched() == Set::<ChunkCoord>::empty(),
            r.metadata() == Option::<LevelData>::None,
    {
        let r = MemoryChunkIO {
            records: Vec::new(),
            meta: None,
            watched_set: Ghost(Set::empty()),
            fail_reads: Vec::new(),
            fail_writes: false,
        };
        proof {
            assert(r.records@ =~= Seq::<(ChunkCoord, ChunkData)>::empty());
            assert(r.stored() =~= Map::<ChunkCoord, ChunkDataView>::empty());
        }
        r
    }

    /// The world metadata record the backend holds, if one has been written.
    pub fn world_info(&self) -> (r: Option<LevelData>)
        ensures
            r == self.metadata(),
    {
        self.meta
    }
}

/// Whether the slice holds the coordinate.
fn slice_has(v: &[ChunkCoord], c: ChunkCoord) -> (r: bool)
    ensures
        r == v@.contains(c),
{
    let n = v.len();
    let mut j: usize = 0;
    while j < n
        invariant
            0 <= j <= n,
            n == v@.len(),
            forall|k: int| 0 <= k < j ==> v@[k] != c,
        decreases n - j,
    {
        if v[j] == c {
            assert(v@.contains(c));
            return true;
        }
        j = j + 1;
    }
    false
}

/// The newest record in the log for the coordinate, scanning from the back.
fn log_get(log: &Vec<(ChunkCoord, ChunkData)>, c: ChunkCoord) -> (r: Option<ChunkData>)
    ensures
        match r {
            Some(d) => log_has(log@, c) && d@ == log_newest(log@, c),
            None => !log_has(log@, c),
        },
{
    let ghost s = log@;
    let mut j = log.len();
    proof {
        assert(s.take(j as int) =~= s);
    }
    while j > 0
        invariant
            0 <= j <= s.len(),
            log@ == s,
            log_has(s, c) == log_has(s.take(j as int), c),
            log_has(s, c) ==> log_newest(s, c) == log_newest(s.take(j as int), c),
        decreases j,
    {
        j = j - 1;
        proof {
            assert(s.take(j + 1).drop_last() =~= s.take(j as int));
            assert(s.take(j + 1).last() == s[j as int]);
        }
        let p = &log[j];
        if p.0 == c {
            return Some(p.1.duplicate());
        }
    }
    proof {
        assert(s.take(0) =~= Seq::<(ChunkCoord, ChunkData)>::empty());
    }
    None
}

impl ChunkIO for MemoryChunkIO {
    closed spec fn stored(&self) -> Map<ChunkCoord, ChunkDataView> {
        Map::new(|c: ChunkCoord| log_has(self.records@, c), |c: ChunkCoord| log_newest(self.records@, c))
    }

    closed spec fn watched(&self) -> Set<ChunkCoord> {
        self.watched_set@
    }

    closed spec fn metadata(&self) -> Option<LevelData> {
        self.meta
    }

    fn fetch_chunks(&mut self, coords: &[ChunkCoord]) -> (r: Vec<LoadedData>) {
        let n = coords.len();
        let mut out: Vec<LoadedData> = Vec::new();
        let mut i: usize = 0;
        while i < n
            invariant
                0 <= i <= n,
                n == coords@.len(),
                *self == *old(self),
                out@.len() == i as int,
                forall|k: int|
                    0 <= k < i ==> load_result_matches(
                        old(self).stored(),
                        coords@[k],
                        #[trigger] out@[k],
                    ),
            decreases n - i,
        {
            let c = coords[i];
            if slice_has(self.fail_reads.as_slice(), c) {
                out.push(LoadedData::Error((c, ChunkReadError::StorageFault)));
            } else {
                match log_get(&self.records, c) {
                    Some(d) => {
                        proof {
                            assert(self.stored().dom().contains(coords@[i as int]));
                            assert(self.stored()[coords@[i as int]] == log_newest(
                                self.records@,
                                coords@[i as int],
                            ));
                        }
                        out.push(LoadedData::Loaded(d));
                    },
                    None => {
                        proof {
                            assert(!self.stored().dom().contains(coords@[i as int]));
                        }
                        out.push(LoadedData::Missing(c));
                    },
                }
            }
            i = i + 1;
        }
        out
    }

    fn save_chunks(&mut self, chunks: Vec<(ChunkCoord, ChunkData)>) -> (r: Result<
        (),
        ChunkWriteError,
    >) {
        if self.fail_writes {
            // a failed batch write stores nothing
            return Err(ChunkWriteError::StorageFault);
        }
        let ghost b = chunks@;
        let ghost pre = self.stored();
        let n = chunks.len();
        let mut i: usize = 0;
        while i < n
            invariant
                0 <= i <= n,
                n == b.len(),
                chunks@ == b,
                forall|i2: int, j2: int|
                    0 <= i2 < j2 < b.len() ==> (#[trigger] b[i2]).0 != (#[trigger] b[j2]).0,
                self.meta == old(self).meta,
                self.watched_set == old(self).watched_set,
                self.fail_reads == old(self).fail_reads,
                self.fail_writes == old(self).fail_writes,
                pre == old(self).stored(),
                forall|c: ChunkCoord|
                    !batch_has_key(b.take(i as int), c) ==> same_record_at(pre, self.stored(), c),
                forall|j: int|
                    0 <= j < i ==> self.stored().dom().contains((#[trigger] b[j]).0)
                        && self.stored()[b[j].0] == b[j].1@,
            decreases n - i,
        {
            let pair = &chunks[i];
            let coord = pair.0;
            let data = pair.1.duplicate();
            let ghost before = self.records@;
            let ghost before_stored = self.stored();
            self.records.push((coord, data));
            proof {
                assert(self.records@.drop_last() =~= before);
                assert(self.records@.last() == (coord, (self.records@.last().1)));
                assert(self.records@.last().0 == coord);
                assert(self.records@.last().1@ == b[i as int].1@);
                assert(b.take(i + 1).drop_last() =~= b.take(i as int));
                assert(b.take(i + 1).last() == b[i as int]);
                assert forall|c: ChunkCoord|
                    !batch_has_key(b.take(i + 1), c) implies same_record_at(
                    pre,
                    self.stored(),
                    c,
                ) by {
                    assert(!batch_has_key(b.take(i as int), c)) by {
                        if batch_has_key(b.take(i as int), c) {
                            let k = choose|k: int| 0 <= k < i && b.take(i as int)[k].0 == c;
                            assert(b.take(i + 1)[k].0 == c);
                        }
                    }
                    assert(c != coord) by {
                        assert(b.take(i + 1)[i as int].0 == coord);
                    }
                    assert(log_has(self.records@, c) == log_has(before, c));
                    assert(log_has(self.records@, c) ==> log_newest(self.records@, c)
                        == log_newest(before, c));
                    assert(same_record_at(pre, before_stored, c));
                }
                assert forall|j: int|
                    0 <= j < i + 1 implies self.stored().dom().contains((#[trigger] b[j]).0)
                    && self.stored()[b[j].0] == b[j].1@ by {
                    if j == i as int {
                        assert(log_has(self.records@, coord));
                        assert(log_newest(self.records@, coord) == b[i as int].1@);
                    } else {
                        assert(b[j].0 != coord);
                        assert(log_has(self.records@, b[j].0) == log_has(before, b[j].0));
                        assert(log_has(before, b[j].0) ==> log_newest(self.records@, b[j].0)
                            == log_newest(before, b[j].0));
                        assert(before_stored.dom().contains(b[j].0) && before_stored[b[j].0]
                            == b[j].1@);
                    }
                }
            }
            i = i + 1;
        }
        proof {
            assert(b.take(n as int) =~= b);
            assert forall|c: ChunkCoord| !batch_has_key(b, c) implies same_record_at(
                old(self).stored(),
                self.stored(),
                c,
            ) by {
                assert(!batch_has_key(b.take(n as int), c)) by {
                    if batch_has_key(b.take(n as int), c) {
                        let k = choose|k: int| 0 <= k < n && b.take(n as int)[k].0 == c;
                        assert(b[k].0 == c);
                    }
                }
            }
        }
        Ok(())
    }

    fn watch_chunks(&mut self, coords: &[ChunkCoord]) {
        proof {
            self.watched_set@ = self.watched_set@.union(coords@.to_set());
        }
    }

    fn unwatch_chunks(&mut self, coords: &[ChunkCoord]) {
        proof {
            self.watched_set@ = self.watched_set@.difference(coords@.to_set());
        }
    }

    fn clear_watched_chunks(&mut self) {
        proof {
            self.watched_set@ = Set::empty();
        }
    }

    fn block_and_await_ongoing_tasks(&mut self) {
        // the in-memory backend completes every operation before returning
    }

    fn clean_up_log(&mut self) {
        // compaction of the log is not needed for correctness; the newest
        // record for a coordinate always wins
    }

    fn write_world_info(&mut self, info: LevelData) -> (r: Result<(), ChunkWriteError>) {
        if self.fail_writes {
            return Err(ChunkWriteError::StorageFault);
        }
        self.meta = Some(info);
        Ok(())
    }
}

} // verus!
