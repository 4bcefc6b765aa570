//! The level root: owns the chunk cache, the spawn-chunk set, the watcher
//! table, the storage backend, the generator, the world seed and the global
//! scheduled-tick queue. One instance exists per world; it is created at
//! world startup and drained to storage at shutdown.

use vstd::prelude::*;
use crate::chunk::{ChunkData, ChunkDataView};
use crate::generation::{Seed, WorldGenerator};
use crate::io::{
    batch_has_key, load_result_matches, same_record_at, ChunkIO, LevelData, LoadedData,
};
use crate::maps;
use crate::position::ChunkCoord;
use crate::tick;
use crate::tick::ScheduledTick;
use crate::watcher;

verus! {

/// Where a level keeps its files; the storage backend interprets it.
#[derive(Clone, Debug)]
pub struct LevelFolder {
    pub root_folder: String,
    pub region_folder: String,
}

/// Lifecycle of a level: it runs, drains its background work, flushes every
/// resident chunk, and closes. `Closed` is terminal.
#[derive(Clone, Copy, PartialEq, Eq, Structural, Debug)]
pub enum LevelState {
    Running,
    Draining,
    Flushing,
    Closed,
}

/// Whether every record of the map sits under its own coordinate.
pub open spec fn records_keyed_by_position(m: Map<ChunkCoord, ChunkDataView>) -> bool {
    forall|c: ChunkCoord| m.dom().contains(c) ==> (#[trigger] m[c]).position == c
}

/// The coordinates of a batch of records, in batch order.
pub open spec fn batch_keys(b: Seq<(ChunkCoord, ChunkData)>) -> Seq<ChunkCoord> {
    b.map_values(|p: (ChunkCoord, ChunkData)| p.0)
}

/// The global tick queue after draining, in turn, the ticks owned by each of
/// the given chunks.
pub open spec fn ticks_after_draining_coords(
    s: Seq<ScheduledTick>,
    ks: Seq<ChunkCoord>,
) -> Seq<ScheduledTick>
    decreases ks.len(),
{
    if ks.len() == 0 {
        s
    } else {
        tick::ticks_not_for_chunk(ticks_after_draining_coords(s, ks.drop_last()), ks.last())
    }
}

/// The ticks whose owning chunk lies outside the given set, in their
/// original order.
pub open spec fn ticks_outside_set(s: Seq<ScheduledTick>, d: Set<ChunkCoord>) -> Seq<ScheduledTick>
    decreases s.len(),
{
    if s.len() == 0 {
        Seq::empty()
    } else {
        let rest = ticks_outside_set(s.drop_last(), d);
        if d.contains(s.last().block_pos.owning_chunk()) {
            rest
        } else {
            rest.push(s.last())
        }
    }
}

/// A chunk record as it is written out: its own payload, carrying exactly
/// the queue ticks that its chunk owns.
pub open spec fn flushed_record(d: ChunkDataView, ticks: Seq<ScheduledTick>) -> ChunkDataView {
    ChunkDataView {
        position: d.position,
        payload: d.payload,
        block_ticks: tick::ticks_for_chunk(ticks, d.position),
    }
}

/// The coordinates the eviction pass snapshots out of a request: those with
/// no watcher and a resident cache entry, first occurrence only, in request
/// order.
pub open spec fn eviction_batch(
    chunks: Seq<ChunkCoord>,
    watchers: Map<ChunkCoord, usize>,
    cache: Map<ChunkCoord, ChunkDataView>,
) -> Seq<ChunkCoord>
    decreases chunks.len(),
{
    if chunks.len() == 0 {
        Seq::empty()
    } else {
        let rest = eviction_batch(chunks.drop_last(), watchers, cache);
        let c = chunks.last();
        if !watchers.dom().contains(c) && cache.dom().contains(c) && !rest.contains(c) {
            rest.push(c)
        } else {
            rest
        }
    }
}

/// Draining chunks that a coordinate is not among leaves that coordinate's
/// ticks in the queue, untouched.
proof fn lemma_drain_coords_unseen(s: Seq<ScheduledTick>, ks: Seq<ChunkCoord>, c: ChunkCoord)
    requires
        !ks.contains(c),
    ensures
        tick::ticks_for_chunk(ticks_after_draining_coords(s, ks), c) == tick::ticks_for_chunk(
            s,
            c,
        ),
    decreases ks.len(),
{
    if ks.len() != 0 {
        assert(!ks.drop_last().contains(c)) by {
            if ks.drop_last().contains(c) {
                let j = choose|j: int| 0 <= j < ks.drop_last().len() && ks.drop_last()[j] == c;
                assert(ks[j] == c);
            }
        }
        lemma_drain_coords_unseen(s, ks.drop_last(), c);
        assert(ks[ks.len() - 1] == ks.last());
        assert(ks.last() != c);
        tick::lemma_drain_other_chunk(ticks_after_draining_coords(s, ks.drop_last()), ks.last(), c);
    }
}

/// Draining one more chunk from a queue that already excludes a set of
/// chunks excludes the union.
proof fn lemma_drain_extends_set(s: Seq<ScheduledTick>, d: Set<ChunkCoord>, c: ChunkCoord)
    ensures
        tick::ticks_not_for_chunk(ticks_outside_set(s, d), c) == ticks_outside_set(s, d.insert(c)),
    decreases s.len(),
{
    if s.len() != 0 {
        lemma_drain_extends_set(s.drop_last(), d, c);
        let rest = ticks_outside_set(s.drop_last(), d);
        let t = s.last();
        if !d.contains(t.block_pos.owning_chunk()) {
            assert(rest.push(t).drop_last() =~= rest);
        }
    }
}

/// Draining the chunks of a coordinate list in turn leaves exactly the ticks
/// owned outside that list's set of coordinates.
proof fn lemma_drain_coords_is_set_filter(s: Seq<ScheduledTick>, ks: Seq<ChunkCoord>)
    ensures
        ticks_after_draining_coords(s, ks) == ticks_outside_set(s, ks.to_set()),
    decreases ks.len(),
{
    if ks.len() == 0 {
        assert(ks.to_set() =~= Set::<ChunkCoord>::empty());
        assert(ticks_outside_set(s, Set::<ChunkCoord>::empty()) =~= s) by {
            lemma_ticks_outside_empty(s);
        }
    } else {
        lemma_drain_coords_is_set_filter(s, ks.drop_last());
        lemma_drain_extends_set(s, ks.drop_last().to_set(), ks.last());
        assert(ks.drop_last().to_set().insert(ks.last()) =~= ks.to_set()) by {
            assert forall|a: ChunkCoord| ks.to_set().contains(a) implies ks.drop_last().to_set().insert(
                ks.last(),
            ).contains(a) by {
                let j = choose|j: int| 0 <= j < ks.len() && ks[j] == a;
                if j < ks.len() - 1 {
                    assert(ks.drop_last()[j] == a);
                    assert(ks.drop_last().contains(a));
                }
            }
            assert forall|a: ChunkCoord| ks.drop_last().to_set().insert(ks.last()).contains(a)
                implies ks.to_set().contains(a) by {
                if ks.drop_last().to_set().contains(a) {
                    let j = choose|j: int| 0 <= j < ks.drop_last().len() && ks.drop_last()[j] == a;
                    assert(ks[j] == a);
                } else {
                    assert(ks[ks.len() - 1] == a);
                }
            }
        }
    }
}

/// Excluding no chunk leaves the queue as it is.
proof fn lemma_ticks_outside_empty(s: Seq<ScheduledTick>)
    ensures
        ticks_outside_set(s, Set::<ChunkCoord>::empty()) == s,
    decreases s.len(),
{
    if s.len() != 0 {
        lemma_ticks_outside_empty(s.drop_last());
        assert(s.drop_last().push(s.last()) =~= s);
    }
}

/// The eviction snapshot holds exactly the requested coordinates that are
/// unwatched and resident, each once.
proof fn lemma_eviction_batch_membership(
    chunks: Seq<ChunkCoord>,
    watchers: Map<ChunkCoord, usize>,
    cache: Map<ChunkCoord, ChunkDataView>,
)
    ensures
        forall|c: ChunkCoord|
            #[trigger] eviction_batch(chunks, watchers, cache).contains(c) <==> (chunks.contains(c)
                && !watchers.dom().contains(c) && cache.dom().contains(c)),
        eviction_batch(chunks, watchers, cache).no_duplicates(),
    decreases chunks.len(),
{
    if chunks.len() != 0 {
        lemma_eviction_batch_membership(chunks.drop_last(), watchers, cache);
        let rest = eviction_batch(chunks.drop_last(), watchers, cache);
        let eb = eviction_batch(chunks, watchers, cache);
        let c0 = chunks.last();
        assert forall|c: ChunkCoord| eb.contains(c) implies (chunks.contains(c)
            && !watchers.dom().contains(c) && cache.dom().contains(c)) by {
            let j = choose|j: int| 0 <= j < eb.len() && eb[j] == c;
            if j < rest.len() {
                assert(rest[j] == c);
                assert(rest.contains(c));
                assert(chunks.drop_last().contains(c));
                let k = choose|k: int|
                    0 <= k < chunks.drop_last().len() && chunks.drop_last()[k] == c;
                assert(chunks[k] == c);
            } else {
                assert(c == c0);
                assert(chunks[chunks.len() - 1] == c);
            }
        }
        assert forall|c: ChunkCoord| (chunks.contains(c) && !watchers.dom().contains(c)
            && cache.dom().contains(c)) implies eb.contains(c) by {
            let j = choose|j: int| 0 <= j < chunks.len() && chunks[j] == c;
            if j < chunks.len() - 1 {
                assert(chunks.drop_last()[j] == c);
                assert(chunks.drop_last().contains(c));
                assert(rest.contains(c));
                let k = choose|k: int| 0 <= k < rest.len() && rest[k] == c;
                if eb != rest {
                    assert(eb[k] == c);
                }
            } else {
                assert(c == c0);
                if rest.contains(c) {
                    let k = choose|k: int| 0 <= k < rest.len() && rest[k] == c;
                    if eb != rest {
                        assert(eb[k] == c);
                    }
                } else {
                    assert(eb == rest.push(c));
                    assert(eb[eb.len() - 1] == c);
                }
            }
        }
        if eb != rest {
            assert(eb == rest.push(c0));
            assert(!rest.contains(c0));
            assert forall|i: int, j: int| 0 <= i < j < eb.len() implies eb[i] != eb[j] by {
                if j < rest.len() {
                    assert(rest[i] != rest[j]);
                } else {
                    assert(eb[j] == c0);
                    assert(rest[i] == eb[i]);
                    if eb[i] == c0 {
                        assert(rest.contains(c0));
                    }
                }
            }
        }
    }
}

/// Whether the list holds the coordinate.
fn coords_contain(v: &Vec<ChunkCoord>, c: ChunkCoord) -> (r: bool)
    ensures
        r == v@.contains(c),
{
    let n = v.len();
    let mut j: usize = 0;
    while j < n
        invariant
            0 <= j <= n,
            n == v@.len(),
            forall|k: int| 0 <= k < j ==> v@[k] != c,
        decreases n - j,
    {
        if v[j] == c {
            assert(v@.contains(c));
            return true;
        }
        j = j + 1;
    }
    false
}

/// What one fetch emission means, against the level state the fetch began
/// in: the emission names a requested coordinate and carries the cache's
/// record for it; a fresh emission was generated (or took the record that a
/// concurrent load of the same coordinate won the insert with), a non-fresh
/// one came from the cache, the spawn set or storage; and a coordinate that
/// none of the three sources held comes back freshly generated.
pub open spec fn emission_ok<G: WorldGenerator>(
    e: (ChunkData, bool),
    pre_cache: Map<ChunkCoord, ChunkDataView>,
    pre_spawn: Map<ChunkCoord, ChunkDataView>,
    pre_stored: Map<ChunkCoord, ChunkDataView>,
    g: G,
    requested: Seq<ChunkCoord>,
    cur_cache: Map<ChunkCoord, ChunkDataView>,
) -> bool {
    let p = e.0@.position;
    &&& requested.contains(p)
    &&& cur_cache.dom().contains(p) && e.0@ == cur_cache[p]
    &&& e.1 ==> !pre_cache.dom().contains(p) && !pre_spawn.dom().contains(p) && (e.0@
        == g.generated(p) || (pre_stored.dom().contains(p) && e.0@ == pre_stored[p]))
    &&& !e.1 ==> ((pre_cache.dom().contains(p) && e.0@ == pre_cache[p]) || (
    pre_spawn.dom().contains(p) && e.0@ == pre_spawn[p]) || (pre_stored.dom().contains(p) && e.0@
        == pre_stored[p]))
    &&& (!pre_cache.dom().contains(p) && !pre_spawn.dom().contains(p)
        && !pre_stored.dom().contains(p)) ==> e.1 && e.0@ == g.generated(p)
}

/// How the cache may evolve during one fetch: existing entries stay as they
/// are, and an entry appears only for a requested coordinate, carrying the
/// spawn record, the stored record or freshly generated content.
pub open spec fn cache_fetch_evolution<G: WorldGenerator>(
    pre_cache: Map<ChunkCoord, ChunkDataView>,
    pre_spawn: Map<ChunkCoord, ChunkDataView>,
    pre_stored: Map<ChunkCoord, ChunkDataView>,
    g: G,
    requested: Seq<ChunkCoord>,
    cur: Map<ChunkCoord, ChunkDataView>,
) -> bool {
    &&& forall|c: ChunkCoord|
        #[trigger] pre_cache.dom().contains(c) ==> cur.dom().contains(c) && cur[c] == pre_cache[c]
    &&& forall|c: ChunkCoord|
        #[trigger] cur.dom().contains(c) ==> pre_cache.dom().contains(c) || (requested.contains(c)
            && ((pre_spawn.dom().contains(c) && cur[c] == pre_spawn[c]) || (
        pre_stored.dom().contains(c) && cur[c] == pre_stored[c]) || cur[c] == g.generated(c)))
}

/// Whether some emission among `results` carries the chunk at coordinate
/// `c`.
pub open spec fn has_emission_for(results: Seq<(ChunkData, bool)>, c: ChunkCoord) -> bool {
    exists|k: int| 0 <= k < results.len() && (#[trigger] results[k]).0@.position == c
}

/// Whether one of the first `upto` emissions carries coordinate `c`.
pub open spec fn emitted_among(
    emissions: Seq<(ChunkData, bool)>,
    upto: int,
    c: ChunkCoord,
) -> bool {
    exists|k: int| 0 <= k < upto && (#[trigger] emissions[k]).0@.position == c
}

/// Whether the coordinate still sits in `rem` at an index of at least
/// `from`.
pub open spec fn pending_from(rem: Seq<ChunkCoord>, from: int, c: ChunkCoord) -> bool {
    exists|k: int| from <= k < rem.len() && #[trigger] rem[k] == c
}

/// Whether a tick is carried in the stored record of some requested chunk.
pub open spec fn tick_from_stored(
    stored: Map<ChunkCoord, ChunkDataView>,
    requested: Seq<ChunkCoord>,
    t: ScheduledTick,
) -> bool {
    exists|c: ChunkCoord|
        requested.contains(c) && stored.dom().contains(c) && (#[trigger] stored[c]).block_ticks.contains(
            t,
        )
}

/// Whether the queue `cur` extends `pre` only by ticks carried in the stored
/// records of requested chunks.
pub open spec fn ticks_extended_from(
    pre: Seq<ScheduledTick>,
    cur: Seq<ScheduledTick>,
    stored: Map<ChunkCoord, ChunkDataView>,
    requested: Seq<ChunkCoord>,
) -> bool {
    &&& pre.is_prefix_of(cur)
    &&& forall|t: int|
        pre.len() <= t < cur.len() ==> tick_from_stored(stored, requested, #[trigger] cur[t])
}

/// Whether every tick of `carried` appears in the queue `cur`.
pub open spec fn ticks_all_in(carried: Seq<ScheduledTick>, cur: Seq<ScheduledTick>) -> bool {
    forall|t: int| 0 <= t < carried.len() ==> cur.contains(#[trigger] carried[t])
}

/// Whether every emission that was served from storage — non-fresh, its
/// coordinate neither cached nor spawn-resident when the fetch began — had
/// its stored record's carried ticks merged back into the queue `cur`.
pub open spec fn loaded_ticks_merged(
    results: Seq<(ChunkData, bool)>,
    pre_cache: Map<ChunkCoord, ChunkDataView>,
    pre_spawn: Map<ChunkCoord, ChunkDataView>,
    pre_stored: Map<ChunkCoord, ChunkDataView>,
    cur: Seq<ScheduledTick>,
) -> bool {
    forall|i: int| #![trigger results[i]]
        0 <= i < results.len() ==> (!results[i].1 && !pre_cache.dom().contains(
            results[i].0@.position,
        ) && !pre_spawn.dom().contains(results[i].0@.position)) ==> (pre_stored.dom().contains(
            results[i].0@.position,
        ) && ticks_all_in(pre_stored[results[i].0@.position].block_ticks, cur))
}

/// Appending to the queue keeps every already-merged tick in it.
proof fn lemma_ticks_all_in_append(
    carried: Seq<ScheduledTick>,
    cur: Seq<ScheduledTick>,
    extra: Seq<ScheduledTick>,
)
    requires
        ticks_all_in(carried, cur),
    ensures
        ticks_all_in(carried, cur + extra),
{
    assert forall|t: int|
        0 <= t < carried.len() implies (cur + extra).contains(#[trigger] carried[t]) by {
        assert(cur.contains(carried[t]));
        let idx = choose|idx: int| 0 <= idx < cur.len() && cur[idx] == carried[t];
        assert((cur + extra)[idx] == carried[t]);
    }
}

/// Whether every requested coordinate either already has an emission among
/// `results` or is still pending, in `gen_pending` or in `rem` at an index of
/// at least `from`.
pub open spec fn emissions_cover(
    requested: Seq<ChunkCoord>,
    results: Seq<(ChunkData, bool)>,
    gen_pending: Seq<ChunkCoord>,
    rem: Seq<ChunkCoord>,
    from: int,
) -> bool {
    forall|j: int| #![trigger requested[j]]
        0 <= j < requested.len() ==> has_emission_for(results, requested[j])
            || gen_pending.contains(requested[j]) || pending_from(rem, from, requested[j])
}

/// Inserting a chunk under a coordinate the cache does not hold yet keeps
/// every already-made emission meaningful and the cache keyed by position.
proof fn lemma_cache_insert_keeps_emissions<G: WorldGenerator>(
    old_cur: Map<ChunkCoord, ChunkDataView>,
    new_cur: Map<ChunkCoord, ChunkDataView>,
    c: ChunkCoord,
    v: ChunkDataView,
    results: Seq<(ChunkData, bool)>,
    pre_cache: Map<ChunkCoord, ChunkDataView>,
    pre_spawn: Map<ChunkCoord, ChunkDataView>,
    pre_stored: Map<ChunkCoord, ChunkDataView>,
    g: G,
    requested: Seq<ChunkCoord>,
)
    requires
        new_cur == old_cur.insert(c, v),
        !old_cur.dom().contains(c),
        v.position == c,
        records_keyed_by_position(old_cur),
        forall|k: int|
            0 <= k < results.len() ==> emission_ok(
                #[trigger] results[k],
                pre_cache,
                pre_spawn,
                pre_stored,
                g,
                requested,
                old_cur,
            ),
    ensures
        records_keyed_by_position(new_cur),
        forall|k: int|
            0 <= k < results.len() ==> emission_ok(
                #[trigger] results[k],
                pre_cache,
                pre_spawn,
                pre_stored,
                g,
                requested,
                new_cur,
            ),
{
    assert forall|x: ChunkCoord| new_cur.dom().contains(x) implies (#[trigger] new_cur[x]).position
        == x by {
        if x != c {
            assert(old_cur[x].position == x);
        }
    }
    assert forall|k: int| 0 <= k < results.len() implies emission_ok(
        #[trigger] results[k],
        pre_cache,
        pre_spawn,
        pre_stored,
        g,
        requested,
        new_cur,
    ) by {
        let p = results[k].0@.position;
        assert(old_cur.dom().contains(p));
        assert(p != c);
        assert(new_cur[p] == old_cur[p]);
    }
}

/// The world-chunk lifecycle manager.
pub struct Level<S: ChunkIO, G: WorldGenerator> {
    pub seed: Seed,
    pub level_info: LevelData,
    pub level_folder: LevelFolder,
    pub spawn_chunks: dashmap::DashMap<ChunkCoord, ChunkData>,
    pub loaded_chunks: dashmap::DashMap<ChunkCoord, ChunkData>,
    pub chunk_watchers: dashmap::DashMap<ChunkCoord, usize>,
    pub chunk_saver: S,
    pub world_gen: G,
    pub block_ticks: Vec<ScheduledTick>,
    pub state: LevelState,
}

impl<S: ChunkIO, G: WorldGenerator> Level<S, G> {
    /// The chunks currently resident in the cache, by coordinate.
    pub closed spec fn cache(&self) -> Map<ChunkCoord, ChunkDataView> {
        maps::chunk_map_view(self.loaded_chunks)
    }

    /// The spawn chunks held permanently resident, by coordinate.
    pub closed spec fn spawn_cache(&self) -> Map<ChunkCoord, ChunkDataView> {
        maps::chunk_map_view(self.spawn_chunks)
    }

    /// The watcher table: interest counts by coordinate, absence meaning
    /// zero.
    pub closed spec fn watchers(&self) -> Map<ChunkCoord, usize> {
        maps::watcher_map_view(self.chunk_watchers)
    }

    /// The global scheduled-tick queue.
    pub closed spec fn ticks(&self) -> Seq<ScheduledTick> {
        self.block_ticks@
    }

    /// The storage backend.
    pub closed spec fn storage(&self) -> S {
        self.chunk_saver
    }

    /// The generator.
    pub closed spec fn generator(&self) -> G {
        self.world_gen
    }

    /// The lifecycle state.
    pub closed spec fn lifecycle(&self) -> LevelState {
        self.state
    }

    /// Well-formedness: the watcher table holds only positive counts, every
    /// cached or stored record sits under its own coordinate.
    pub open spec fn wf(&self) -> bool {
        &&& watcher::watcher_wf(self.watchers())
        &&& records_keyed_by_position(self.cache())
        &&& records_keyed_by_position(self.spawn_cache())
        &&& records_keyed_by_position(self.storage().stored())
    }

    /// The parts of a level that no chunk traffic ever changes.
    pub open spec fn same_config_as(&self, o: &Level<S, G>) -> bool {
        self.seed == o.seed && self.level_info == o.level_info && self.generator()
            == o.generator()
    }

    /// Creates the level root for one world. The storage backend must hold
    /// each of its records under that record's own coordinate.
    pub fn new(
        seed: Seed,
        level_info: LevelData,
        level_folder: LevelFolder,
        chunk_saver: S,
        world_gen: G,
    ) -> (r: Level<S, G>)
        requires
            records_keyed_by_position(chunk_saver.stored()),
        ensures
            r.wf(),
            r.cache() == maps::chunk_map_empty(),
            r.spawn_cache() == maps::chunk_map_empty(),
            r.watchers() == maps::watcher_map_empty(),
            r.ticks() == Seq::<ScheduledTick>::empty(),
            r.storage() == chunk_saver,
            r.generator() == world_gen,
            r.seed == seed,
            r.level_info == level_info,
            r.lifecycle() == LevelState::Running,
    {
        let r = Level {
            seed,
            level_info,
            level_folder,
            spawn_chunks: maps::chunk_map_new(),
            loaded_chunks: maps::chunk_map_new(),
            chunk_watchers: maps::watcher_map_new(),
            chunk_saver,
            world_gen,
            block_ticks: Vec::new(),
            state: LevelState::Running,
        };
        proof {
            assert(r.block_ticks@ =~= Seq::<ScheduledTick>::empty());
            assert(records_keyed_by_position(maps::chunk_map_empty()));
        }
        r
    }

    /// The lifecycle state the level is in.
    pub fn current_lifecycle(&self) -> (r: LevelState)
        ensures
            r == self.lifecycle(),
    {
        self.state
    }

    /// Marks chunks as watched by one more observer each: each count is
    /// created at one or incremented (an increment that would overflow is
    /// dropped), and the storage backend is told of the interest. Should only
    /// be called for chunks the observer was not watching before.
    pub fn mark_chunks_as_newly_watched(&mut self, chunks: &[ChunkCoord])
        requires
            old(self).wf(),
            old(self).lifecycle() == LevelState::Running,
        ensures
            final(self).wf(),
            final(self).watchers() == watcher::watch_seq(old(self).watchers(), chunks@),
            final(self).cache() == old(self).cache(),
            final(self).spawn_cache() == old(self).spawn_cache(),
            final(self).ticks() == old(self).ticks(),
            final(self).lifecycle() == old(self).lifecycle(),
            final(self).same_config_as(old(self)),
            final(self).storage().stored() == old(self).storage().stored(),
            final(self).storage().metadata() == old(self).storage().metadata(),
            final(self).storage().watched() == old(self).storage().watched().union(
                chunks@.to_set(),
            ),
    {
        let ghost pre = self.watchers();
        let n = chunks.len();
        let mut i: usize = 0;
        while i < n
            invariant
                0 <= i <= n,
                n == chunks@.len(),
                maps::watcher_map_view(self.chunk_watchers) == watcher::watch_seq(
                    pre,
                    chunks@.take(i as int),
                ),
                self.loaded_chunks == old(self).loaded_chunks,
                self.spawn_chunks == old(self).spawn_chunks,
                self.chunk_saver == old(self).chunk_saver,
                self.world_gen == old(self).world_gen,
                self.block_ticks == old(self).block_ticks,
                self.state == old(self).state,
                self.seed == old(self).seed,
                self.level_info == old(self).level_info,
            decreases n - i,
        {
            let c = chunks[i];
            proof {
                assert(chunks@.take(i + 1).drop_last() =~= chunks@.take(i as int));
                assert(chunks@.take(i + 1).last() == chunks@[i as int]);
            }
            match maps::watcher_map_get(&self.chunk_watchers, &c) {
                Some(count) => {
                    if count < usize::MAX {
                        maps::watcher_map_insert(&mut self.chunk_watchers, c, count + 1);
                    }
                    // an increment past the maximum is dropped
                },
                None => {
                    maps::watcher_map_insert(&mut self.chunk_watchers, c, 1);
                },
            }
            i = i + 1;
        }
        proof {
            assert(chunks@.take(n as int) =~= chunks@);
            watcher::lemma_watch_seq_wf(pre, chunks@);
        }
        self.chunk_saver.watch_chunks(chunks);
        proof {
            assert(self.chunk_saver.stored() == old(self).chunk_saver.stored());
            assert(self.cache() == old(self).cache());
        }
    }

    /// Marks one chunk as watched by one more observer.
    pub fn mark_chunk_as_newly_watched(&mut self, chunk: ChunkCoord)
        requires
            old(self).wf(),
            old(self).lifecycle() == LevelState::Running,
        ensures
            final(self).wf(),
            final(self).watchers() == watcher::watch_one(old(self).watchers(), chunk),
            final(self).cache() == old(self).cache(),
            final(self).spawn_cache() == old(self).spawn_cache(),
            final(self).ticks() == old(self).ticks(),
            final(self).lifecycle() == old(self).lifecycle(),
            final(self).same_config_as(old(self)),
            final(self).storage().stored() == old(self).storage().stored(),
            final(self).storage().metadata() == old(self).storage().metadata(),
            final(self).storage().watched() == old(self).storage().watched().insert(chunk),
    {
        let mut one: Vec<ChunkCoord> = Vec::new();
        one.push(chunk);
        proof {
            assert(one@ =~= seq![chunk]);
            assert(seq![chunk].drop_last() =~= Seq::<ChunkCoord>::empty());
            assert forall|a: ChunkCoord| seq![chunk].contains(a) <==> a == chunk by {
                if a == chunk {
                    assert(seq![chunk][0] == chunk);
                }
            }
            assert(seq![chunk].to_set() =~= Set::empty().insert(chunk));
            assert(old(self).storage().watched().union(Set::empty().insert(chunk))
                =~= old(self).storage().watched().insert(chunk));
        }
        self.mark_chunks_as_newly_watched(one.as_slice());
        proof {
            let m0 = old(self).watchers();
            let s1 = seq![chunk];
            assert(s1.drop_last() =~= Seq::<ChunkCoord>::empty());
            assert(watcher::watch_seq(m0, s1.drop_last()) == m0);
            assert(s1.last() == chunk);
            assert(watcher::watch_seq(m0, s1) == watcher::watch_one(m0, chunk));
        }
    }

    /// Marks chunks as no longer watched by one observer each: each count
    /// decrements, saturating at zero; a count reaching zero removes the
    /// entry and the coordinate is returned as eviction-eligible. Stopping on
    /// an absent entry is a legitimate no-op (the caller raced a disconnect
    /// or moved faster than chunks could load).
    pub fn mark_chunks_as_not_watched(&mut self, chunks: &[ChunkCoord]) -> (r: Vec<ChunkCoord>)
        requires
            old(self).wf(),
            old(self).lifecycle() == LevelState::Running,
        ensures
            final(self).wf(),
            final(self).watchers() == watcher::unwatch_seq(old(self).watchers(), chunks@).0,
            r@ == watcher::unwatch_seq(old(self).watchers(), chunks@).1,
            final(self).cache() == old(self).cache(),
            final(self).spawn_cache() == old(self).spawn_cache(),
            final(self).ticks() == old(self).ticks(),
            final(self).lifecycle() == old(self).lifecycle(),
            final(self).same_config_as(old(self)),
            final(self).storage().stored() == old(self).storage().stored(),
            final(self).storage().metadata() == old(self).storage().metadata(),
            final(self).storage().watched() == old(self).storage().watched().difference(
                chunks@.to_set(),
            ),
    {
        let ghost pre = self.watchers();
        let mut chunks_to_clean: Vec<ChunkCoord> = Vec::new();
        let n = chunks.len();
        let mut i: usize = 0;
        while i < n
            invariant
                0 <= i <= n,
                n == chunks@.len(),
                maps::watcher_map_view(self.chunk_watchers) == watcher::unwatch_seq(
                    pre,
                    chunks@.take(i as int),
                ).0,
                chunks_to_clean@ == watcher::unwatch_seq(pre, chunks@.take(i as int)).1,
                self.loaded_chunks == old(self).loaded_chunks,
                self.spawn_chunks == old(self).spawn_chunks,
                self.chunk_saver == old(self).chunk_saver,
                self.world_gen == old(self).world_gen,
                self.block_ticks == old(self).block_ticks,
                self.state == old(self).state,
                self.seed == old(self).seed,
                self.level_info == old(self).level_info,
            decreases n - i,
        {
            let c = chunks[i];
            proof {
                assert(chunks@.take(i + 1).drop_last() =~= chunks@.take(i as int));
                assert(chunks@.take(i + 1).last() == chunks@[i as int]);
            }
            match maps::watcher_map_get(&self.chunk_watchers, &c) {
                Some(count) => {
                    if count <= 1 {
                        maps::watcher_map_remove(&mut self.chunk_watchers, &c);
                        chunks_to_clean.push(c);
                    } else {
                        maps::watcher_map_insert(&mut self.chunk_watchers, c, count - 1);
                    }
                },
                None => {
                    // the coordinate was not watched: a legitimate no-op
                },
            }
            i = i + 1;
        }
        proof {
            assert(chunks@.take(n as int) =~= chunks@);
            watcher::lemma_unwatch_seq_wf(pre, chunks@);
        }
        self.chunk_saver.unwatch_chunks(chunks);
        proof {
            assert(self.chunk_saver.stored() == old(self).chunk_saver.stored());
            assert(self.cache() == old(self).cache());
        }
        chunks_to_clean
    }

    /// Marks one chunk as no longer watched; returns whether its count
    /// reached zero, so that it should be evicted from memory.
    pub fn mark_chunk_as_not_watched(&mut self, chunk: ChunkCoord) -> (r: bool)
        requires
            old(self).wf(),
            old(self).lifecycle() == LevelState::Running,
        ensures
            final(self).wf(),
            final(self).watchers() == watcher::unwatch_one(old(self).watchers(), chunk).0,
            r == watcher::unwatch_one(old(self).watchers(), chunk).1,
            final(self).cache() == old(self).cache(),
            final(self).spawn_cache() == old(self).spawn_cache(),
            final(self).ticks() == old(self).ticks(),
            final(self).lifecycle() == old(self).lifecycle(),
            final(self).same_config_as(old(self)),
            final(self).storage().stored() == old(self).storage().stored(),
            final(self).storage().metadata() == old(self).storage().metadata(),
            final(self).storage().watched() == old(self).storage().watched().remove(chunk),
    {
        let mut one: Vec<ChunkCoord> = Vec::new();
        one.push(chunk);
        proof {
            assert(one@ =~= seq![chunk]);
            assert(seq![chunk].drop_last() =~= Seq::<ChunkCoord>::empty());
            assert forall|a: ChunkCoord| seq![chunk].contains(a) <==> a == chunk by {
                if a == chunk {
                    assert(seq![chunk][0] == chunk);
                }
            }
            assert(seq![chunk].to_set() =~= Set::empty().insert(chunk));
            assert(old(self).storage().watched().difference(Set::empty().insert(chunk))
                =~= old(self).storage().watched().remove(chunk));
        }
        let cleaned = self.mark_chunks_as_not_watched(one.as_slice());
        proof {
            let m0 = old(self).watchers();
            let s1 = seq![chunk];
            assert(s1.drop_last() =~= Seq::<ChunkCoord>::empty());
            assert(watcher::unwatch_seq(m0, s1.drop_last()) == (m0, Seq::<ChunkCoord>::empty()));
            assert(s1.last() == chunk);
            let step = watcher::unwatch_one(m0, chunk);
            assert(watcher::unwatch_seq(m0, s1).0 == step.0);
            if step.1 {
                assert(watcher::unwatch_seq(m0, s1).1 == Seq::<ChunkCoord>::empty().push(chunk));
                assert(cleaned@.len() == 1);
            } else {
                assert(watcher::unwatch_seq(m0, s1).1 == Seq::<ChunkCoord>::empty());
                assert(cleaned@.len() == 0);
            }
        }
        !cleaned.is_empty()
    }

    /// Whether the chunk currently has at least one watcher.
    pub fn is_chunk_watched(&self, chunk: &ChunkCoord) -> (r: bool)
        ensures
            r == self.watchers().dom().contains(*chunk),
    {
        maps::watcher_map_get(&self.chunk_watchers, chunk).is_some()
    }

    /// The number of chunks currently resident in the cache.
    pub fn loaded_chunk_count(&self) -> (r: usize)
        ensures
            r == self.cache().dom().len(),
    {
        maps::chunk_map_len(&self.loaded_chunks)
    }

    /// A snapshot of the resident chunk under the coordinate, if any.
    pub fn try_get_chunk(&self, coordinates: ChunkCoord) -> (r: Option<ChunkData>)
        ensures
            match r {
                Some(d) => self.cache().dom().contains(coordinates) && d@
                    == self.cache()[coordinates],
                None => !self.cache().dom().contains(coordinates),
            },
    {
        maps::chunk_map_get(&self.loaded_chunks, &coordinates)
    }

    /// The coordinates of every chunk currently resident in the cache, each
    /// exactly once, in no particular order.
    pub fn cached_coords(&self) -> (r: Vec<ChunkCoord>)
        ensures
            forall|i: int, j: int| 0 <= i < j < r@.len() ==> r@[i] != r@[j],
            forall|i: int| 0 <= i < r@.len() ==> self.cache().dom().contains(#[trigger] r@[i]),
            forall|c: ChunkCoord|
                self.cache().dom().contains(c) ==> exists|i: int|
                    0 <= i < r@.len() && #[trigger] r@[i] == c,
    {
        let entries = maps::chunk_map_entries(&self.loaded_chunks);
        let n = entries.len();
        let mut r: Vec<ChunkCoord> = Vec::new();
        let mut i: usize = 0;
        while i < n
            invariant
                0 <= i <= n,
                n == entries@.len(),
                r@.len() == i,
                forall|j: int| 0 <= j < i ==> r@[j] == (#[trigger] entries@[j]).0,
                forall|i2: int, j: int| 0 <= i2 < j < entries@.len() ==> entries@[i2].0 != entries@[j].0,
                forall|j: int|
                    0 <= j < entries@.len() ==> self.cache().dom().contains(
                        (#[trigger] entries@[j]).0,
                    ),
            decreases n - i,
        {
            let p = &entries[i];
            r.push(p.0);
            i = i + 1;
        }
        proof {
            assert forall|i2: int, j: int| 0 <= i2 < j < r@.len() implies r@[i2] != r@[j] by {
                assert(r@[i2] == entries@[i2].0);
                assert(r@[j] == entries@[j].0);
            }
            assert forall|i2: int| 0 <= i2 < r@.len() implies self.cache().dom().contains(
                r@[i2],
            ) by {
                assert(r@[i2] == entries@[i2].0);
            }
            assert forall|c: ChunkCoord| self.cache().dom().contains(c) implies exists|j: int|
                0 <= j < r@.len() && #[trigger] r@[j] == c by {
                let j = choose|j: int|
                    0 <= j < entries@.len() && #[trigger] entries@[j].0 == c;
                assert(r@[j] == c);
            }
        }
        r
    }

    /// Compacts the storage backend's own bookkeeping.
    pub fn clean_up_log(&mut self)
        requires
            old(self).wf(),
        ensures
            final(self).wf(),
            final(self).cache() == old(self).cache(),
            final(self).spawn_cache() == old(self).spawn_cache(),
            final(self).watchers() == old(self).watchers(),
            final(self).ticks() == old(self).ticks(),
            final(self).lifecycle() == old(self).lifecycle(),
            final(self).same_config_as(old(self)),
            final(self).storage().stored() == old(self).storage().stored(),
            final(self).storage().watched() == old(self).storage().watched(),
            final(self).storage().metadata() == old(self).storage().metadata(),
    {
        self.chunk_saver.clean_up_log();
        proof {
            assert(self.chunk_saver.stored() == old(self).chunk_saver.stored());
        }
    }

    /// Appends a scheduled block tick to the global queue.
    pub fn schedule_block_tick(
        &mut self,
        block_id: u16,
        block_pos: crate::position::BlockPos,
        delay: u16,
        priority: crate::tick::TickPriority,
    )
        requires
            old(self).wf(),
            old(self).lifecycle() == LevelState::Running,
        ensures
            final(self).wf(),
            final(self).ticks() == old(self).ticks().push(
                ScheduledTick { block_pos, delay, priority, target_block_id: block_id },
            ),
            final(self).cache() == old(self).cache(),
            final(self).spawn_cache() == old(self).spawn_cache(),
            final(self).watchers() == old(self).watchers(),
            final(self).lifecycle() == old(self).lifecycle(),
            final(self).same_config_as(old(self)),
            final(self).storage() == old(self).storage(),
    {
        tick::schedule(
            &mut self.block_ticks,
            ScheduledTick { block_pos, delay, priority, target_block_id: block_id },
        );
    }

    /// Whether a tick for the given block position and block identity is
    /// pending. Linear in the number of pending ticks.
    pub fn is_block_tick_scheduled(
        &self,
        block_pos: &crate::position::BlockPos,
        block_id: u16,
    ) -> (r: bool)
        ensures
            r == exists|i: int|
                0 <= i < self.ticks().len() && (#[trigger] self.ticks()[i]).block_pos == *block_pos
                    && self.ticks()[i].target_block_id == block_id,
    {
        tick::is_scheduled(&self.block_ticks, block_pos, block_id)
    }

    /// Advances every pending tick by one world tick and returns the ticks
    /// that became due, sorted by ascending priority rank, ticks of equal
    /// priority in scheduling order. Invoked once per world tick.
    pub fn get_and_tick_block_ticks(&mut self) -> (r: Vec<ScheduledTick>)
        requires
            old(self).wf(),
            old(self).lifecycle() == LevelState::Running,
        ensures
            final(self).wf(),
            final(self).ticks() == tick::pending_after_advance(old(self).ticks()),
            r@ == tick::sorted_by_priority(tick::due_after_advance(old(self).ticks())),
            final(self).cache() == old(self).cache(),
            final(self).spawn_cache() == old(self).spawn_cache(),
            final(self).watchers() == old(self).watchers(),
            final(self).lifecycle() == old(self).lifecycle(),
            final(self).same_config_as(old(self)),
            final(self).storage() == old(self).storage(),
    {
        tick::advance_and_collect_due(&mut self.block_ticks)
    }

    /// Prunes cache entries that no watcher needs any more, and shrinks the
    /// two maps' storage when their slack exceeds a fixed threshold.
    pub fn clean_memory(&mut self)
        requires
            old(self).wf(),
            old(self).lifecycle() == LevelState::Running,
        ensures
            final(self).wf(),
            final(self).watchers() == old(self).watchers(),
            forall|c: ChunkCoord|
                final(self).cache().dom().contains(c) <==> (old(self).cache().dom().contains(c)
                    && old(self).watchers().dom().contains(c)),
            forall|c: ChunkCoord|
                final(self).cache().dom().contains(c) ==> final(self).cache()[c] == old(
                    self,
                ).cache()[c],
            final(self).spawn_cache() == old(self).spawn_cache(),
            final(self).ticks() == old(self).ticks(),
            final(self).lifecycle() == old(self).lifecycle(),
            final(self).same_config_as(old(self)),
            final(self).storage() == old(self).storage(),
    {
        // under well-formedness no stored watcher count is zero, so pruning
        // the watcher table keeps it as it is; prune the cache down to the
        // watched coordinates
        let keys = self.cached_coords();
        let ghost pre_cache = self.cache();
        let n = keys.len();
        let mut i: usize = 0;
        while i < n
            invariant
                0 <= i <= n,
                n == keys@.len(),
                maps::watcher_map_view(self.chunk_watchers) == old(self).watchers(),
                forall|i2: int, j: int| 0 <= i2 < j < keys@.len() ==> keys@[i2] != keys@[j],
                forall|j: int| 0 <= j < keys@.len() ==> pre_cache.dom().contains(#[trigger] keys@[j]),
                forall|c: ChunkCoord|
                    pre_cache.dom().contains(c) ==> exists|j: int|
                        0 <= j < keys@.len() && #[trigger] keys@[j] == c,
                forall|c: ChunkCoord|
                    maps::chunk_map_view(self.loaded_chunks).dom().contains(c) ==> (
                    pre_cache.dom().contains(c) && maps::chunk_map_view(self.loaded_chunks)[c]
                        == pre_cache[c]),
                forall|c: ChunkCoord|
                    maps::chunk_map_view(self.loaded_chunks).dom().contains(c) <==> (
                    pre_cache.dom().contains(c) && !(exists|j: int|
                        0 <= j < i && keys@[j] == c && !old(self).watchers().dom().contains(c))),
                self.spawn_chunks == old(self).spawn_chunks,
                self.chunk_watchers == old(self).chunk_watchers,
                self.chunk_saver == old(self).chunk_saver,
                self.world_gen == old(self).world_gen,
                self.block_ticks == old(self).block_ticks,
                self.state == old(self).state,
                self.seed == old(self).seed,
                self.level_info == old(self).level_info,
            decreases n - i,
        {
            let c = keys[i];
            if maps::watcher_map_get(&self.chunk_watchers, &c).is_none() {
                maps::chunk_map_remove(&mut self.loaded_chunks, &c);
            }
            i = i + 1;
        }
        proof {
            assert forall|c: ChunkCoord|
                #[trigger] maps::chunk_map_view(self.loaded_chunks).dom().contains(c) <==> (
                pre_cache.dom().contains(c) && old(self).watchers().dom().contains(c)) by {
                if pre_cache.dom().contains(c) && !old(self).watchers().dom().contains(c) {
                    let j = choose|j: int| 0 <= j < keys@.len() && #[trigger] keys@[j] == c;
                    assert(0 <= j < n && keys@[j] == c && !old(self).watchers().dom().contains(c));
                }
            }
            assert forall|c: ChunkCoord|
                maps::chunk_map_view(self.loaded_chunks).dom().contains(c) implies (#[trigger] maps::chunk_map_view(
                self.loaded_chunks,
            )[c]).position == c by {
                assert(maps::chunk_map_view(self.loaded_chunks)[c] == pre_cache[c]);
                assert(records_keyed_by_position(pre_cache));
                assert(pre_cache[c].position == c);
            }
            assert(records_keyed_by_position(maps::chunk_map_view(self.loaded_chunks)));
        }
        // if the slack is large (4096 entries is the equivalent of several
        // full view distances) shrink the maps
        let wcap = maps::watcher_map_capacity(&self.chunk_watchers);
        let wlen = maps::watcher_map_len(&self.chunk_watchers);
        if wcap > wlen && wcap - wlen >= 4096 {
            maps::watcher_map_shrink_to_fit(&mut self.chunk_watchers);
        }
        let ccap = maps::chunk_map_capacity(&self.loaded_chunks);
        let clen = maps::chunk_map_len(&self.loaded_chunks);
        if ccap > clen && ccap - clen >= 4096 {
            maps::chunk_map_shrink_to_fit(&mut self.loaded_chunks);
        }
    }

    /// Writes a batch of chunk records to storage, best-effort. Before
    /// writing, each record's pending ticks are drained from the global queue
    /// into that record; a record whose chunk is still cache-resident is
    /// mirrored back into the cache, as the shared chunk handle keeps writers
    /// and the cache in step. The batch must hold pairwise distinct
    /// coordinates, each record under its own coordinate.
    pub fn write_chunks(&mut self, chunks_to_write: Vec<(ChunkCoord, ChunkData)>)
        requires
            old(self).wf(),
            old(self).lifecycle() != LevelState::Closed,
            forall|i: int, j: int|
                0 <= i < j < chunks_to_write@.len() ==> (#[trigger] chunks_to_write@[i]).0 != (
                #[trigger] chunks_to_write@[j]).0,
            forall|i: int|
                0 <= i < chunks_to_write@.len() ==> (#[trigger] chunks_to_write@[i]).1@.position
                    == chunks_to_write@[i].0,
        ensures
            final(self).wf(),
            final(self).watchers() == old(self).watchers(),
            final(self).spawn_cache() == old(self).spawn_cache(),
            final(self).lifecycle() == old(self).lifecycle(),
            final(self).same_config_as(old(self)),
            final(self).storage().watched() == old(self).storage().watched(),
            final(self).storage().metadata() == old(self).storage().metadata(),
            final(self).ticks() == ticks_after_draining_coords(
                old(self).ticks(),
                batch_keys(chunks_to_write@),
            ),
            forall|c: ChunkCoord|
                !batch_has_key(chunks_to_write@, c) ==> same_record_at(
                    old(self).cache(),
                    final(self).cache(),
                    c,
                ),
            forall|i: int|
                0 <= i < chunks_to_write@.len() && old(self).cache().dom().contains(
                    (#[trigger] chunks_to_write@[i]).0,
                ) ==> final(self).cache().dom().contains(chunks_to_write@[i].0)
                    && final(self).cache()[chunks_to_write@[i].0] == flushed_record(
                    chunks_to_write@[i].1@,
                    old(self).ticks(),
                ),
            forall|i: int|
                0 <= i < chunks_to_write@.len() && !old(self).cache().dom().contains(
                    (#[trigger] chunks_to_write@[i]).0,
                ) ==> !final(self).cache().dom().contains(chunks_to_write@[i].0),
            forall|c: ChunkCoord|
                !batch_has_key(chunks_to_write@, c) ==> same_record_at(
                    old(self).storage().stored(),
                    final(self).storage().stored(),
                    c,
                ),
            forall|i: int|
                0 <= i < chunks_to_write@.len() ==> (final(self).storage().stored().dom().contains(
                    (#[trigger] chunks_to_write@[i]).0,
                ) && final(self).storage().stored()[chunks_to_write@[i].0] == flushed_record(
                    chunks_to_write@[i].1@,
                    old(self).ticks(),
                )) || same_record_at(
                    old(self).storage().stored(),
                    final(self).storage().stored(),
                    chunks_to_write@[i].0,
                ),
    {
        let ghost b = chunks_to_write@;
        let ghost pre_ticks = self.block_ticks@;
        let ghost pre_cache = self.cache();
        if chunks_to_write.len() == 0 {
            proof {
                assert(batch_keys(b) =~= Seq::<ChunkCoord>::empty());
            }
            return ;
        }
        let n = chunks_to_write.len();
        let mut to_save: Vec<(ChunkCoord, ChunkData)> = Vec::new();
        let mut i: usize = 0;
        while i < n
            invariant
                0 <= i <= n,
                n == b.len(),
                chunks_to_write@ == b,
                forall|i2: int, j: int|
                    0 <= i2 < j < b.len() ==> (#[trigger] b[i2]).0 != (#[trigger] b[j]).0,
                forall|i2: int| 0 <= i2 < b.len() ==> (#[trigger] b[i2]).1@.position == b[i2].0,
                self.block_ticks@ == ticks_after_draining_coords(
                    pre_ticks,
                    batch_keys(b.take(i as int)),
                ),
                to_save@.len() == i as int,
                forall|j: int|
                    0 <= j < i ==> (#[trigger] to_save@[j]).0 == b[j].0 && to_save@[j].1@
                        == flushed_record(b[j].1@, pre_ticks),
                forall|c: ChunkCoord|
                    !batch_has_key(b.take(i as int), c) ==> same_record_at(
                        pre_cache,
                        maps::chunk_map_view(self.loaded_chunks),
                        c,
                    ),
                forall|j: int|
                    0 <= j < i && pre_cache.dom().contains((#[trigger] b[j]).0) ==> maps::chunk_map_view(
                        self.loaded_chunks,
                    ).dom().contains(b[j].0) && maps::chunk_map_view(self.loaded_chunks)[b[j].0]
                        == flushed_record(b[j].1@, pre_ticks),
                forall|j: int|
                    0 <= j < i && !pre_cache.dom().contains((#[trigger] b[j]).0)
                        ==> !maps::chunk_map_view(self.loaded_chunks).dom().contains(b[j].0),
                records_keyed_by_position(maps::chunk_map_view(self.loaded_chunks)),
                self.spawn_chunks == old(self).spawn_chunks,
                self.chunk_watchers == old(self).chunk_watchers,
                self.chunk_saver == old(self).chunk_saver,
                self.world_gen == old(self).world_gen,
                self.state == old(self).state,
                self.seed == old(self).seed,
                self.level_info == old(self).level_info,
            decreases n - i,
        {
            let pair = &chunks_to_write[i];
            let coord = pair.0;
            let mut data = pair.1.duplicate();
            proof {
                assert(b.take(i + 1).drop_last() =~= b.take(i as int));
                assert(b.take(i + 1).last() == b[i as int]);
                assert(batch_keys(b.take(i + 1)) =~= batch_keys(b.take(i as int)).push(
                    b[i as int].0,
                ));
                assert(batch_keys(b.take(i + 1)).drop_last() =~= batch_keys(b.take(i as int)));
                assert(!batch_keys(b.take(i as int)).contains(coord)) by {
                    if batch_keys(b.take(i as int)).contains(coord) {
                        let j = choose|j: int|
                            0 <= j < i && batch_keys(b.take(i as int))[j] == coord;
                        assert(b[j].0 == coord);
                        assert(b[j].0 != b[i as int].0);
                    }
                }
                lemma_drain_coords_unseen(pre_ticks, batch_keys(b.take(i as int)), coord);
            }
            let drained = tick::drain_ticks_for_chunk(&mut self.block_ticks, coord);
            data.block_ticks = drained;
            proof {
                assert(data@ == flushed_record(b[i as int].1@, pre_ticks));
            }
            proof {
                assert(!batch_has_key(b.take(i as int), coord)) by {
                    if batch_has_key(b.take(i as int), coord) {
                        let j = choose|j: int| 0 <= j < i && b.take(i as int)[j].0 == coord;
                        assert(b[j].0 == coord);
                        assert(b[j].0 != b[i as int].0);
                    }
                }
                assert(same_record_at(pre_cache, maps::chunk_map_view(self.loaded_chunks), coord));
            }
            let ghost mid_cache = maps::chunk_map_view(self.loaded_chunks);
            let resident = maps::chunk_map_get(&self.loaded_chunks, &coord);
            if resident.is_some() {
                maps::chunk_map_insert(&mut self.loaded_chunks, coord, data.duplicate());
            }
            proof {
                assert forall|j: int|
                    0 <= j < i && pre_cache.dom().contains((#[trigger] b[j]).0) implies maps::chunk_map_view(
                    self.loaded_chunks,
                ).dom().contains(b[j].0) && maps::chunk_map_view(self.loaded_chunks)[b[j].0]
                    == flushed_record(b[j].1@, pre_ticks) by {
                    assert(b[j].0 != coord);
                    assert(mid_cache.dom().contains(b[j].0) && mid_cache[b[j].0] == flushed_record(
                        b[j].1@,
                        pre_ticks,
                    ));
                }
                assert forall|j: int|
                    0 <= j < i && !pre_cache.dom().contains((#[trigger] b[j]).0)
                    implies !maps::chunk_map_view(self.loaded_chunks).dom().contains(b[j].0) by {
                    assert(b[j].0 != coord);
                    assert(!mid_cache.dom().contains(b[j].0));
                }
            }
            to_save.push((coord, data));
            proof {
                assert(batch_keys(b.take(i + 1)).last() == coord);
                assert forall|c: ChunkCoord| !batch_has_key(b.take(i + 1), c) implies same_record_at(
                    pre_cache,
                    maps::chunk_map_view(self.loaded_chunks),
                    c,
                ) by {
                    assert(!batch_has_key(b.take(i as int), c)) by {
                        if batch_has_key(b.take(i as int), c) {
                            let j = choose|j: int| 0 <= j < i && b.take(i as int)[j].0 == c;
                            assert(b.take(i + 1)[j].0 == c);
                        }
                    }
                    assert(c != coord) by {
                        assert(b.take(i + 1)[i as int].0 == coord);
                    }
                }
            }
            i = i + 1;
        }
        proof {
            assert(b.take(n as int) =~= b);
        }
        let res = self.chunk_saver.save_chunks(to_save);
        if res.is_err() {
            // a failed batch write is reported by the backend, not retried
        }
        proof {
            assert forall|c: ChunkCoord| !batch_has_key(b, c) implies !batch_has_key(
                to_save@,
                c,
            ) by {
                if batch_has_key(to_save@, c) {
                    let j = choose|j: int| 0 <= j < to_save@.len() && to_save@[j].0 == c;
                    assert(b[j].0 == c);
                }
            }
            assert forall|c: ChunkCoord|
                #[trigger] self.chunk_saver.stored().dom().contains(c) implies self.chunk_saver.stored()[c].position
                == c by {
                if batch_has_key(b, c) {
                    let j = choose|j: int| 0 <= j < b.len() && (#[trigger] b[j]).0 == c;
                    assert(to_save@[j].0 == c && to_save@[j].1@ == flushed_record(
                        b[j].1@,
                        pre_ticks,
                    ));
                    if self.chunk_saver.stored()[c] == to_save@[j].1@ {
                    } else {
                        assert(same_record_at(
                            old(self).chunk_saver.stored(),
                            self.chunk_saver.stored(),
                            c,
                        )) by {
                            let post = self.chunk_saver.stored();
                            if !(post.dom().contains(c) && post[c] == to_save@[j].1@) {
                            }
                        }
                    }
                } else {
                }
            }
            assert(records_keyed_by_position(self.chunk_saver.stored()));
            assert(pre_ticks == old(self).ticks());
            assert forall|i2: int| 0 <= i2 < b.len() implies ((self.chunk_saver.stored().dom().contains(
                (#[trigger] b[i2]).0,
            ) && self.chunk_saver.stored()[b[i2].0] == flushed_record(b[i2].1@, pre_ticks))
                || same_record_at(
                old(self).chunk_saver.stored(),
                self.chunk_saver.stored(),
                b[i2].0,
            )) by {
                assert(to_save@[i2].0 == b[i2].0 && to_save@[i2].1@ == flushed_record(
                    b[i2].1@,
                    pre_ticks,
                ));
            }
        }
    }
    /// Considers the given chunks for eviction. Chunks with no watcher that
    /// are cache-resident are snapshotted, written to storage with their
    /// pending ticks, and only then removed from the cache, re-checking at
    /// removal time that no interest reappeared while the write was in
    /// flight.
    pub fn clean_chunks(&mut self, chunks: &[ChunkCoord])
        requires
            old(self).wf(),
            old(self).lifecycle() == LevelState::Running,
        ensures
            final(self).wf(),
            final(self).watchers() == old(self).watchers(),
            final(self).spawn_cache() == old(self).spawn_cache(),
            final(self).lifecycle() == old(self).lifecycle(),
            final(self).same_config_as(old(self)),
            final(self).storage().watched() == old(self).storage().watched(),
            final(self).storage().metadata() == old(self).storage().metadata(),
            final(self).ticks() == ticks_after_draining_coords(
                old(self).ticks(),
                eviction_batch(chunks@, old(self).watchers(), old(self).cache()),
            ),
            forall|c: ChunkCoord|
                chunks@.contains(c) && !old(self).watchers().dom().contains(c)
                    ==> !final(self).cache().dom().contains(c),
            forall|c: ChunkCoord|
                !(chunks@.contains(c) && !old(self).watchers().dom().contains(c))
                    ==> same_record_at(old(self).cache(), final(self).cache(), c),
            forall|c: ChunkCoord|
                !(chunks@.contains(c) && !old(self).watchers().dom().contains(c)
                    && old(self).cache().dom().contains(c)) ==> same_record_at(
                    old(self).storage().stored(),
                    final(self).storage().stored(),
                    c,
                ),
            forall|c: ChunkCoord|
                chunks@.contains(c) && !old(self).watchers().dom().contains(c)
                    && old(self).cache().dom().contains(c)
                    ==> (final(self).storage().stored().dom().contains(c)
                    && final(self).storage().stored()[c] == flushed_record(
                    old(self).cache()[c],
                    old(self).ticks(),
                )) || same_record_at(
                    old(self).storage().stored(),
                    final(self).storage().stored(),
                    c,
                ),
    {
        let ghost pre_w = self.watchers();
        let ghost pre_cache = self.cache();
        let ghost eb = eviction_batch(chunks@, pre_w, pre_cache);
        let mut coords: Vec<ChunkCoord> = Vec::new();
        let mut to_write: Vec<(ChunkCoord, ChunkData)> = Vec::new();
        let n = chunks.len();
        let mut i: usize = 0;
        while i < n
            invariant
                0 <= i <= n,
                n == chunks@.len(),
                self.watchers() == pre_w,
                self.cache() == pre_cache,
                coords@ == eviction_batch(chunks@.take(i as int), pre_w, pre_cache),
                to_write@.len() == coords@.len(),
                forall|j: int|
                    0 <= j < coords@.len() ==> (#[trigger] to_write@[j]).0 == coords@[j]
                        && to_write@[j].1@ == pre_cache[coords@[j]],
            decreases n - i,
        {
            let c = chunks[i];
            proof {
                assert(chunks@.take(i + 1).drop_last() =~= chunks@.take(i as int));
                assert(chunks@.take(i + 1).last() == chunks@[i as int]);
            }
            if maps::watcher_map_get(&self.chunk_watchers, &c).is_none() {
                match maps::chunk_map_get(&self.loaded_chunks, &c) {
                    Some(d) => {
                        if !coords_contain(&coords, c) {
                            coords.push(c);
                            to_write.push((c, d));
                        }
                    },
                    None => {},
                }
            }
            i = i + 1;
        }
        proof {
            assert(chunks@.take(n as int) =~= chunks@);
            lemma_eviction_batch_membership(chunks@, pre_w, pre_cache);
            assert(coords@ == eb);
            assert forall|k: int| 0 <= k < coords@.len() implies (!pre_w.dom().contains(
                #[trigger] coords@[k],
            ) && pre_cache.dom().contains(coords@[k])) by {
                assert(eb[k] == coords@[k]);
                assert(eb.contains(eb[k]));
                assert(chunks@.contains(coords@[k]) && !pre_w.dom().contains(coords@[k])
                    && pre_cache.dom().contains(coords@[k]));
            }
            assert(eb.no_duplicates());
            assert forall|i2: int, j: int|
                0 <= i2 < j < to_write@.len() implies (#[trigger] to_write@[i2]).0 != (
            #[trigger] to_write@[j]).0 by {
                assert(coords@[i2] != coords@[j]);
            }
            assert forall|j: int|
                0 <= j < to_write@.len() implies (#[trigger] to_write@[j]).1@.position
                == to_write@[j].0 by {
                assert(pre_cache.dom().contains(coords@[j]));
            }
        }
        let ghost batch = to_write@;
        self.write_chunks(to_write);
        let ghost mid_cache = self.cache();
        let ghost mid_stored = self.chunk_saver.stored();
        proof {
            assert(batch_keys(batch) =~= eb);
        }
        // only after the write is done are the chunks removed from the
        // cache, and only where no watcher has appeared meanwhile
        let m = coords.len();
        let mut j: usize = 0;
        while j < m
            invariant
                0 <= j <= m,
                m == coords@.len(),
                coords@ == eb,
                self.watchers() == pre_w,
                forall|k: int|
                    0 <= k < coords@.len() ==> !pre_w.dom().contains(#[trigger] coords@[k]),
                maps::chunk_map_view(self.loaded_chunks).dom().subset_of(mid_cache.dom()),
                forall|x: ChunkCoord|
                    maps::chunk_map_view(self.loaded_chunks).dom().contains(x) <==> (
                    mid_cache.dom().contains(x) && !coords@.take(j as int).contains(x)),
                forall|x: ChunkCoord|
                    maps::chunk_map_view(self.loaded_chunks).dom().contains(x)
                        ==> maps::chunk_map_view(self.loaded_chunks)[x] == mid_cache[x],
                maps::chunk_map_view(self.spawn_chunks) == old(self).spawn_cache(),
                self.chunk_saver.stored() == mid_stored,
                self.chunk_saver.watched() == old(self).chunk_saver.watched(),
                self.chunk_saver.metadata() == old(self).chunk_saver.metadata(),
                self.block_ticks@ == ticks_after_draining_coords(old(self).ticks(), eb),
                self.world_gen == old(self).world_gen,
                self.state == old(self).state,
                self.seed == old(self).seed,
                self.level_info == old(self).level_info,
                records_keyed_by_position(maps::chunk_map_view(self.loaded_chunks)),
                records_keyed_by_position(self.chunk_saver.stored()),
            decreases m - j,
        {
            let c = coords[j];
            proof {
                assert(coords@.contains(c));
                assert(coords@.take(j + 1).drop_last() =~= coords@.take(j as int));
                assert(coords@.take(j + 1).last() == coords@[j as int]);
            }
            if maps::watcher_map_get(&self.chunk_watchers, &c).is_none() {
                maps::chunk_map_remove(&mut self.loaded_chunks, &c);
            }
            proof {
                assert forall|x: ChunkCoord|
                    maps::chunk_map_view(self.loaded_chunks).dom().contains(x) <==> (
                    mid_cache.dom().contains(x) && !coords@.take(j + 1).contains(x)) by {
                    if coords@.take(j + 1).contains(x) {
                        let k = choose|k: int|
                            0 <= k < j + 1 && #[trigger] coords@.take(j + 1)[k] == x;
                        if k < j {
                            assert(coords@.take(j as int)[k] == x);
                        } else {
                            assert(x == c);
                        }
                    } else {
                        if coords@.take(j as int).contains(x) {
                            let k = choose|k: int| 0 <= k < j && coords@.take(j as int)[k] == x;
                            assert(coords@.take(j + 1)[k] == x);
                        }
                        assert(x != c) by {
                            if x == c {
                                assert(coords@.take(j + 1)[j as int] == x);
                            }
                        }
                    }
                }
            }
            j = j + 1;
        }
        proof {
            assert(coords@.take(m as int) =~= coords@);
            lemma_eviction_batch_membership(chunks@, pre_w, pre_cache);
            assert forall|c: ChunkCoord|
                chunks@.contains(c) && !pre_w.dom().contains(c) implies !maps::chunk_map_view(
                self.loaded_chunks,
            ).dom().contains(c) by {
                if pre_cache.dom().contains(c) {
                    assert(eb.contains(c));
                } else {
                    assert(!batch_has_key(batch, c)) by {
                        if batch_has_key(batch, c) {
                            let k = choose|k: int| 0 <= k < batch.len() && batch[k].0 == c;
                            assert(coords@[k] == c);
                            assert(eb.contains(c));
                        }
                    }
                    assert(same_record_at(pre_cache, mid_cache, c));
                }
            }
            assert forall|c: ChunkCoord|
                !(chunks@.contains(c) && !pre_w.dom().contains(c)) implies same_record_at(
                pre_cache,
                maps::chunk_map_view(self.loaded_chunks),
                c,
            ) by {
                assert(!eb.contains(c));
                assert(!batch_has_key(batch, c)) by {
                    if batch_has_key(batch, c) {
                        let k = choose|k: int| 0 <= k < batch.len() && batch[k].0 == c;
                        assert(coords@[k] == c);
                        assert(eb.contains(c));
                    }
                }
                assert(same_record_at(pre_cache, mid_cache, c));
                assert(!coords@.contains(c));
            }
            assert forall|c: ChunkCoord|
                !(chunks@.contains(c) && !pre_w.dom().contains(c) && pre_cache.dom().contains(c))
                implies same_record_at(old(self).chunk_saver.stored(), self.chunk_saver.stored(), c) by {
                assert(!eb.contains(c));
                assert(!batch_has_key(batch, c)) by {
                    if batch_has_key(batch, c) {
                        let k = choose|k: int| 0 <= k < batch.len() && batch[k].0 == c;
                        assert(coords@[k] == c);
                        assert(eb.contains(c));
                    }
                }
            }
            assert forall|c: ChunkCoord|
                chunks@.contains(c) && !pre_w.dom().contains(c) && pre_cache.dom().contains(c)
                implies ((self.chunk_saver.stored().dom().contains(c)
                && self.chunk_saver.stored()[c] == flushed_record(pre_cache[c], old(self).ticks()))
                || same_record_at(old(self).chunk_saver.stored(), self.chunk_saver.stored(), c)) by {
                assert(eb.contains(c));
                let k = choose|k: int| 0 <= k < eb.len() && eb[k] == c;
                assert(batch[k].0 == c && batch[k].1@ == pre_cache[c]);
            }
        }
    }

    /// Considers one chunk for eviction.
    pub fn clean_chunk(&mut self, chunk: ChunkCoord)
        requires
            old(self).wf(),
            old(self).lifecycle() == LevelState::Running,
        ensures
            final(self).wf(),
            final(self).watchers() == old(self).watchers(),
            final(self).spawn_cache() == old(self).spawn_cache(),
            final(self).lifecycle() == old(self).lifecycle(),
            final(self).same_config_as(old(self)),
            final(self).storage().watched() == old(self).storage().watched(),
            final(self).storage().metadata() == old(self).storage().metadata(),
            !old(self).watchers().dom().contains(chunk) ==> !final(self).cache().dom().contains(
                chunk,
            ),
            forall|c: ChunkCoord|
                !(c == chunk && !old(self).watchers().dom().contains(c))
                    ==> #[trigger] same_record_at(old(self).cache(), final(self).cache(), c),
    {
        let mut one: Vec<ChunkCoord> = Vec::new();
        one.push(chunk);
        proof {
            assert(one@ =~= seq![chunk]);
        }
        self.clean_chunks(one.as_slice());
        proof {
            assert(seq![chunk][0] == chunk);
            if !old(self).watchers().dom().contains(chunk) {
                assert(seq![chunk].contains(chunk));
                assert(!self.cache().dom().contains(chunk));
            }
            assert forall|c: ChunkCoord|
                !(c == chunk && !old(self).watchers().dom().contains(c))
                implies #[trigger] same_record_at(old(self).cache(), self.cache(), c) by {
                assert(seq![chunk].contains(c) ==> c == chunk) by {
                    if seq![chunk].contains(c) {
                        let k = choose|k: int| 0 <= k < 1 && #[trigger] seq![chunk][k] == c;
                    }
                }
                assert(!(seq![chunk].contains(c) && !old(self).watchers().dom().contains(c)));
                assert(same_record_at(old(self).cache(), self.cache(), c));
            }
        }
    }

    /// Gracefully shuts the level down: background work is drained, the
    /// storage backend finishes its in-flight operations and its watch-set is
    /// cleared, every still-resident chunk is flushed to storage regardless
    /// of watcher count, the cache and the watcher table are emptied, and the
    /// world metadata is persisted. A metadata write failure is reported by
    /// the backend but does not prevent reaching the closed state, which is
    /// terminal.
    pub fn shutdown(&mut self)
        requires
            old(self).wf(),
            old(self).lifecycle() == LevelState::Running,
        ensures
            final(self).wf(),
            final(self).lifecycle() == LevelState::Closed,
            final(self).cache() == maps::chunk_map_empty(),
            final(self).watchers() == maps::watcher_map_empty(),
            final(self).storage().watched() == Set::<ChunkCoord>::empty(),
            final(self).spawn_cache() == old(self).spawn_cache(),
            final(self).same_config_as(old(self)),
            final(self).ticks() == ticks_outside_set(old(self).ticks(), old(self).cache().dom()),
            forall|c: ChunkCoord|
                !old(self).cache().dom().contains(c) ==> same_record_at(
                    old(self).storage().stored(),
                    final(self).storage().stored(),
                    c,
                ),
            forall|c: ChunkCoord|
                old(self).cache().dom().contains(c) ==> (final(self).storage().stored().dom().contains(
                    c,
                ) && final(self).storage().stored()[c] == flushed_record(
                    old(self).cache()[c],
                    old(self).ticks(),
                )) || same_record_at(
                    old(self).storage().stored(),
                    final(self).storage().stored(),
                    c,
                ),
            final(self).storage().metadata() == Some(old(self).level_info)
                || final(self).storage().metadata() == old(self).storage().metadata(),
    {
        let ghost pre_cache = self.cache();
        // background tasks spawned for this level observe the shutdown
        // notification and wind down; the embedding runtime awaits them
        self.state = LevelState::Draining;
        self.chunk_saver.block_and_await_ongoing_tasks();
        self.state = LevelState::Flushing;
        // save all chunks currently in memory, then drop them
        let chunks_to_write = maps::chunk_map_entries(&self.loaded_chunks);
        let ghost batch = chunks_to_write@;
        maps::chunk_map_clear(&mut self.loaded_chunks);
        self.chunk_saver.clear_watched_chunks();
        proof {
            assert forall|i2: int|
                0 <= i2 < batch.len() implies (#[trigger] batch[i2]).1@.position == batch[i2].0 by {
                assert(pre_cache.dom().contains(batch[i2].0));
            }
        }
        self.write_chunks(chunks_to_write);
        proof {
            // the cache was already empty when the batch was written, so no
            // record was mirrored back
            assert forall|c: ChunkCoord|
                !(#[trigger] maps::chunk_map_view(self.loaded_chunks).dom().contains(c)) by {
                if batch_has_key(batch, c) {
                    let k = choose|k: int| 0 <= k < batch.len() && batch[k].0 == c;
                } else {
                    assert(same_record_at(
                        maps::chunk_map_empty(),
                        maps::chunk_map_view(self.loaded_chunks),
                        c,
                    ));
                }
            }
            assert(maps::chunk_map_view(self.loaded_chunks) =~= maps::chunk_map_empty());
            // the flushed batch covers exactly the previously resident chunks
            lemma_drain_coords_is_set_filter(old(self).ticks(), batch_keys(batch));
            assert(batch_keys(batch).to_set() =~= pre_cache.dom()) by {
                assert forall|c: ChunkCoord|
                    batch_keys(batch).to_set().contains(c) implies pre_cache.dom().contains(c) by {
                    let k = choose|k: int|
                        0 <= k < batch_keys(batch).len() && batch_keys(batch)[k] == c;
                    assert(batch[k].0 == c);
                }
                assert forall|c: ChunkCoord|
                    pre_cache.dom().contains(c) implies batch_keys(batch).to_set().contains(c) by {
                    let k = choose|k: int| 0 <= k < batch.len() && (#[trigger] batch[k]).0 == c;
                    assert(batch_keys(batch)[k] == c);
                    assert(batch_keys(batch).contains(c));
                }
            }
            assert forall|c: ChunkCoord|
                old(self).cache().dom().contains(c) implies ((self.chunk_saver.stored().dom().contains(
                c,
            ) && self.chunk_saver.stored()[c] == flushed_record(pre_cache[c], old(self).ticks()))
                || same_record_at(
                old(self).chunk_saver.stored(),
                self.chunk_saver.stored(),
                c,
            )) by {
                let k = choose|k: int| 0 <= k < batch.len() && (#[trigger] batch[k]).0 == c;
                assert(batch[k].1@ == pre_cache[c]);
            }
            assert forall|c: ChunkCoord|
                !old(self).cache().dom().contains(c) implies same_record_at(
                old(self).chunk_saver.stored(),
                self.chunk_saver.stored(),
                c,
            ) by {
                assert(!batch_has_key(batch, c)) by {
                    if batch_has_key(batch, c) {
                        let k = choose|k: int| 0 <= k < batch.len() && batch[k].0 == c;
                    }
                }
            }
        }
        maps::watcher_map_clear(&mut self.chunk_watchers);
        // then save the world info; a failure here is reported but must not
        // stop the shutdown
        let info_result = self.chunk_saver.write_world_info(self.level_info);
        if info_result.is_err() {
            // reported by the backend; the chunks themselves are written
        }
        self.state = LevelState::Closed;
    }
    /// Reads or generates many chunks. Each requested coordinate produces
    /// exactly one emission: a chunk record and whether it was freshly
    /// generated. Cache-resident chunks are served first; the rest go to
    /// storage as one batched read; chunks that storage confirms absent, or
    /// fails to read, are generated (a chunk lost to a storage fault is
    /// regenerated rather than surfaced as an error: liveness is preferred
    /// over one chunk's content). Requests racing for one never-seen
    /// coordinate collapse into a single cache entry: all emissions for one
    /// coordinate carry the same record. The output order does not follow the
    /// input order.
    #[verifier::rlimit(60)]
    #[verifier::loop_isolation(false)]
    pub fn fetch_chunks(&mut self, chunks: &[ChunkCoord]) -> (results: Vec<(ChunkData, bool)>)
        requires
            old(self).wf(),
            old(self).lifecycle() == LevelState::Running,
        ensures
            final(self).wf(),
            final(self).watchers() == old(self).watchers(),
            final(self).spawn_cache() == old(self).spawn_cache(),
            final(self).lifecycle() == old(self).lifecycle(),
            final(self).same_config_as(old(self)),
            final(self).storage().stored() == old(self).storage().stored(),
            final(self).storage().watched() == old(self).storage().watched(),
            final(self).storage().metadata() == old(self).storage().metadata(),
            results@.len() == chunks@.len(),
            forall|i: int|
                0 <= i < results@.len() ==> emission_ok(
                    #[trigger] results@[i],
                    old(self).cache(),
                    old(self).spawn_cache(),
                    old(self).storage().stored(),
                    old(self).generator(),
                    chunks@,
                    final(self).cache(),
                ),
            forall|i: int, j: int|
                0 <= i < results@.len() && 0 <= j < results@.len()
                    && (#[trigger] results@[i]).0@.position == (#[trigger] results@[j]).0@.position
                    ==> results@[i].0@ == results@[j].0@,
            forall|j: int|
                0 <= j < chunks@.len() ==> has_emission_for(results@, #[trigger] chunks@[j]),
            forall|j: int|
                0 <= j < chunks@.len() ==> final(self).cache().dom().contains(
                    #[trigger] chunks@[j],
                ),
            cache_fetch_evolution(
                old(self).cache(),
                old(self).spawn_cache(),
                old(self).storage().stored(),
                old(self).generator(),
                chunks@,
                final(self).cache(),
            ),
            ticks_extended_from(
                old(self).ticks(),
                final(self).ticks(),
                old(self).storage().stored(),
                chunks@,
            ),
            loaded_ticks_merged(
                results@,
                old(self).cache(),
                old(self).spawn_cache(),
                old(self).storage().stored(),
                final(self).ticks(),
            ),
    {
        let ghost pre_cache = self.cache();
        let ghost pre_spawn = self.spawn_cache();
        let ghost pre_stored = self.chunk_saver.stored();
        let ghost g = self.world_gen;
        let ghost pre_ticks = self.block_ticks@;
        let mut results: Vec<(ChunkData, bool)> = Vec::new();
        if chunks.is_empty() {
            proof {
                assert(self.block_ticks@.subrange(0, pre_ticks.len() as int) =~= pre_ticks);
                assert(loaded_ticks_merged(
                    results@,
                    pre_cache,
                    pre_spawn,
                    pre_stored,
                    self.block_ticks@,
                ));
            }
            return results;
        }
        // send every chunk already resident, note the rest
        let mut remaining_chunks: Vec<ChunkCoord> = Vec::new();
        let n = chunks.len();
        let mut i: usize = 0;
        while i < n
            invariant
                0 <= i <= n,
                n == chunks@.len(),
                self.spawn_chunks == old(self).spawn_chunks,
                self.chunk_watchers == old(self).chunk_watchers,
                self.chunk_saver == old(self).chunk_saver,
                self.world_gen == old(self).world_gen,
                self.block_ticks == old(self).block_ticks,
                self.state == old(self).state,
                self.seed == old(self).seed,
                self.level_info == old(self).level_info,
                pre_spawn == maps::chunk_map_view(self.spawn_chunks),
                pre_cache == old(self).cache(),
                records_keyed_by_position(pre_spawn),
                records_keyed_by_position(maps::chunk_map_view(self.loaded_chunks)),
                forall|c: ChunkCoord|
                    #[trigger] pre_cache.dom().contains(c) ==> maps::chunk_map_view(
                        self.loaded_chunks,
                    ).dom().contains(c) && maps::chunk_map_view(self.loaded_chunks)[c]
                        == pre_cache[c],
                forall|c: ChunkCoord|
                    #[trigger] maps::chunk_map_view(self.loaded_chunks).dom().contains(c)
                        ==> pre_cache.dom().contains(c) || (chunks@.contains(c)
                        && pre_spawn.dom().contains(c) && maps::chunk_map_view(
                        self.loaded_chunks,
                    )[c] == pre_spawn[c]),
                forall|k: int|
                    0 <= k < results@.len() ==> emission_ok(
                        #[trigger] results@[k],
                        pre_cache,
                        pre_spawn,
                        pre_stored,
                        g,
                        chunks@,
                        maps::chunk_map_view(self.loaded_chunks),
                    ),
                results@.len() + remaining_chunks@.len() == i as int,
                forall|k: int|
                    0 <= k < remaining_chunks@.len() ==> chunks@.contains(
                        #[trigger] remaining_chunks@[k],
                    ) && !pre_cache.dom().contains(remaining_chunks@[k])
                        && !pre_spawn.dom().contains(remaining_chunks@[k]),
                forall|j: int| #![trigger chunks@[j]]
                    0 <= j < i ==> has_emission_for(results@, chunks@[j])
                        || remaining_chunks@.contains(chunks@[j]),
                loaded_ticks_merged(
                    results@,
                    pre_cache,
                    pre_spawn,
                    pre_stored,
                    self.block_ticks@,
                ),
            decreases n - i,
        {
            let c = chunks[i];
            let ghost old_results = results@;
            let ghost old_remaining = remaining_chunks@;
            proof {
                assert(chunks@.contains(chunks@[i as int]));
            }
            match maps::chunk_map_get(&self.loaded_chunks, &c) {
                Some(d) => {
                    proof {
                        let cur = maps::chunk_map_view(self.loaded_chunks);
                        assert(cur[chunks@[i as int]].position == chunks@[i as int]);
                        assert(emission_ok(
                            (d, false),
                            pre_cache,
                            pre_spawn,
                            pre_stored,
                            g,
                            chunks@,
                            cur,
                        ));
                    }
                    results.push((d, false));
                    proof {
                        assert((results@[results@.len() - 1]).0@.position == chunks@[i as int]);
                        assert(pre_cache.dom().contains(chunks@[i as int])
                            || pre_spawn.dom().contains(chunks@[i as int]));
                    }
                },
                None => {
                    match maps::chunk_map_get(&self.spawn_chunks, &c) {
                        Some(d) => {
                            proof {
                                assert(pre_spawn.dom().contains(chunks@[i as int]));
                                assert(pre_spawn[chunks@[i as int]].position == chunks@[i as int]);
                                assert(d@ == pre_spawn[chunks@[i as int]]);
                            }
                            let ghost before_cur = maps::chunk_map_view(self.loaded_chunks);
                            // promote the spawn chunk into the cache
                            maps::chunk_map_insert(&mut self.loaded_chunks, c, d.duplicate());
                            proof {
                                let cur = maps::chunk_map_view(self.loaded_chunks);
                                lemma_cache_insert_keeps_emissions(
                                    before_cur,
                                    cur,
                                    c,
                                    d@,
                                    results@,
                                    pre_cache,
                                    pre_spawn,
                                    pre_stored,
                                    g,
                                    chunks@,
                                );
                                assert forall|x: ChunkCoord|
                                    #[trigger] cur.dom().contains(x) implies pre_cache.dom().contains(
                                    x,
                                ) || (chunks@.contains(x) && pre_spawn.dom().contains(x) && cur[x]
                                    == pre_spawn[x]) by {
                                    if x != c {
                                        assert(before_cur.dom().contains(x));
                                        assert(cur[x] == before_cur[x]);
                                    }
                                }
                                assert forall|x: ChunkCoord|
                                    #[trigger] pre_cache.dom().contains(x) implies cur.dom().contains(
                                    x,
                                ) && cur[x] == pre_cache[x] by {
                                    assert(before_cur.dom().contains(x) && before_cur[x]
                                        == pre_cache[x]);
                                    assert(x != c);
                                }
                                assert(emission_ok(
                                    (d, false),
                                    pre_cache,
                                    pre_spawn,
                                    pre_stored,
                                    g,
                                    chunks@,
                                    cur,
                                ));
                            }
                            results.push((d, false));
                            proof {
                                assert((results@[results@.len() - 1]).0@.position
                                    == chunks@[i as int]);
                                assert(pre_spawn.dom().contains(chunks@[i as int]));
                            }
                        },
                        None => {
                            remaining_chunks.push(c);
                            proof {
                                assert(remaining_chunks@[remaining_chunks@.len() - 1]
                                    == chunks@[i as int]);
                            }
                        },
                    }
                },
            }
            proof {
                assert forall|j: int| #![trigger chunks@[j]] 0 <= j < i + 1 implies has_emission_for(
                    results@,
                    chunks@[j],
                ) || remaining_chunks@.contains(chunks@[j]) by {
                    if j == i as int {
                        if results@.len() > old_results.len() {
                            assert((results@[results@.len() - 1]).0@.position == chunks@[j]);
                            assert(has_emission_for(results@, chunks@[j]));
                        } else {
                            assert(remaining_chunks@[remaining_chunks@.len() - 1] == chunks@[j]);
                            assert(remaining_chunks@.contains(chunks@[j]));
                        }
                    } else {
                        if has_emission_for(old_results, chunks@[j]) {
                            let k = choose|k: int|
                                0 <= k < old_results.len()
                                    && (#[trigger] old_results[k]).0@.position == chunks@[j];
                            assert((results@[k]).0@.position == chunks@[j]);
                            assert(has_emission_for(results@, chunks@[j]));
                        } else {
                            assert(old_remaining.contains(chunks@[j]));
                            let k = choose|k: int|
                                0 <= k < old_remaining.len() && old_remaining[k] == chunks@[j];
                            assert(remaining_chunks@[k] == chunks@[j]);
                            assert(remaining_chunks@.contains(chunks@[j]));
                        }
                    }
                }
                assert forall|i2: int| #![trigger results@[i2]]
                    0 <= i2 < results@.len() implies (!results@[i2].1
                    && !pre_cache.dom().contains(results@[i2].0@.position)
                    && !pre_spawn.dom().contains(results@[i2].0@.position)) ==> (
                pre_stored.dom().contains(results@[i2].0@.position) && ticks_all_in(
                    pre_stored[results@[i2].0@.position].block_ticks,
                    self.block_ticks@,
                )) by {
                    if i2 < old_results.len() {
                        assert(old_results[i2] == results@[i2]);
                    }
                }
                assert(loaded_ticks_merged(
                    results@,
                    pre_cache,
                    pre_spawn,
                    pre_stored,
                    self.block_ticks@,
                ));
            }
            i = i + 1;
        }
        if remaining_chunks.is_empty() {
            proof {
                assert(self.block_ticks@.subrange(0, pre_ticks.len() as int) =~= pre_ticks);
                assert(ticks_extended_from(pre_ticks, self.block_ticks@, pre_stored, chunks@));
                assert(cache_fetch_evolution(
                    pre_cache,
                    pre_spawn,
                    pre_stored,
                    g,
                    chunks@,
                    maps::chunk_map_view(self.loaded_chunks),
                ));
                assert forall|j: int|
                    0 <= j < chunks@.len() implies has_emission_for(
                    results@,
                    #[trigger] chunks@[j],
                ) by {
                    assert(!remaining_chunks@.contains(chunks@[j]));
                }
                assert forall|j: int|
                    0 <= j < chunks@.len() implies maps::chunk_map_view(
                    self.loaded_chunks,
                ).dom().contains(#[trigger] chunks@[j]) by {
                    assert(has_emission_for(results@, chunks@[j]));
                    let k = choose|k: int|
                        0 <= k < results@.len() && (#[trigger] results@[k]).0@.position == chunks@[j];
                    assert(emission_ok(
                        results@[k],
                        pre_cache,
                        pre_spawn,
                        pre_stored,
                        g,
                        chunks@,
                        maps::chunk_map_view(self.loaded_chunks),
                    ));
                }
                assert forall|i2: int, j2: int|
                    0 <= i2 < results@.len() && 0 <= j2 < results@.len()
                        && (#[trigger] results@[i2]).0@.position == (
                    #[trigger] results@[j2]).0@.position implies results@[i2].0@
                    == results@[j2].0@ by {
                    assert(emission_ok(
                        results@[i2],
                        pre_cache,
                        pre_spawn,
                        pre_stored,
                        g,
                        chunks@,
                        maps::chunk_map_view(self.loaded_chunks),
                    ));
                    assert(emission_ok(
                        results@[j2],
                        pre_cache,
                        pre_spawn,
                        pre_stored,
                        g,
                        chunks@,
                        maps::chunk_map_view(self.loaded_chunks),
                    ));
                }
            }
            return results;
        }
        proof {
            assert(self.block_ticks@.subrange(0, pre_ticks.len() as int) =~= pre_ticks);
            assert(ticks_extended_from(pre_ticks, self.block_ticks@, pre_stored, chunks@));
        }
        // ask storage for the rest as one batch
        let load_results = self.chunk_saver.fetch_chunks(remaining_chunks.as_slice());
        let ghost rem = remaining_chunks@;
        let ghost lr = load_results@;
        proof {
            assert forall|j: int| #![trigger chunks@[j]]
                0 <= j < chunks@.len() implies has_emission_for(results@, chunks@[j]) || Seq::<
                ChunkCoord,
            >::empty().contains(chunks@[j]) || pending_from(rem, 0, chunks@[j]) by {
                if remaining_chunks@.contains(chunks@[j]) {
                    let k = choose|k: int| 0 <= k < rem.len() && rem[k] == chunks@[j];
                    assert(pending_from(rem, 0, chunks@[j]));
                }
            }
            assert(emissions_cover(chunks@, results@, Seq::empty(), rem, 0));
        }
        // resolve each storage answer: loaded chunks join the cache and their
        // carried ticks the global queue; the rest go to generation
        let mut to_generate: Vec<ChunkCoord> = Vec::new();
        proof {
            assert(to_generate@ =~= Seq::<ChunkCoord>::empty());
        }
        let m = load_results.len();
        let mut k: usize = 0;
        while k < m
            invariant
                0 <= k <= m,
                m == lr.len(),
                lr.len() == rem.len(),
                load_results@ == lr,
                remaining_chunks@ == rem,
                forall|k2: int|
                    0 <= k2 < lr.len() ==> load_result_matches(
                        pre_stored,
                        rem[k2],
                        #[trigger] lr[k2],
                    ),
                forall|k2: int|
                    0 <= k2 < rem.len() ==> chunks@.contains(#[trigger] rem[k2])
                        && !pre_cache.dom().contains(rem[k2]) && !pre_spawn.dom().contains(
                        rem[k2],
                    ),
                records_keyed_by_position(pre_stored),
                maps::chunk_map_view(self.spawn_chunks) == pre_spawn,
                maps::watcher_map_view(self.chunk_watchers) == old(self).watchers(),
                self.chunk_saver.stored() == pre_stored,
                self.chunk_saver.watched() == old(self).chunk_saver.watched(),
                self.chunk_saver.metadata() == old(self).chunk_saver.metadata(),
                self.world_gen == old(self).world_gen,
                self.state == old(self).state,
                self.seed == old(self).seed,
                self.level_info == old(self).level_info,
                records_keyed_by_position(maps::chunk_map_view(self.loaded_chunks)),
                forall|c: ChunkCoord|
                    #[trigger] pre_cache.dom().contains(c) ==> maps::chunk_map_view(
                        self.loaded_chunks,
                    ).dom().contains(c) && maps::chunk_map_view(self.loaded_chunks)[c]
                        == pre_cache[c],
                forall|c: ChunkCoord|
                    #[trigger] maps::chunk_map_view(self.loaded_chunks).dom().contains(c)
                        ==> pre_cache.dom().contains(c) || (chunks@.contains(c) && ((
                    pre_spawn.dom().contains(c) && maps::chunk_map_view(self.loaded_chunks)[c]
                        == pre_spawn[c]) || (pre_stored.dom().contains(c) && maps::chunk_map_view(
                        self.loaded_chunks,
                    )[c] == pre_stored[c]))),
                forall|k2: int|
                    0 <= k2 < results@.len() ==> emission_ok(
                        #[trigger] results@[k2],
                        pre_cache,
                        pre_spawn,
                        pre_stored,
                        g,
                        chunks@,
                        maps::chunk_map_view(self.loaded_chunks),
                    ),
                results@.len() + to_generate@.len() + (m - k) == chunks@.len(),
                forall|k2: int|
                    0 <= k2 < to_generate@.len() ==> chunks@.contains(#[trigger] to_generate@[k2])
                        && !pre_cache.dom().contains(to_generate@[k2])
                        && !pre_spawn.dom().contains(to_generate@[k2]),
                emissions_cover(chunks@, results@, to_generate@, rem, k as int),
                ticks_extended_from(pre_ticks, self.block_ticks@, pre_stored, chunks@),
                loaded_ticks_merged(
                    results@,
                    pre_cache,
                    pre_spawn,
                    pre_stored,
                    self.block_ticks@,
                ),
            decreases m - k,
        {
            let ghost old_results = results@;
            let ghost old_gen = to_generate@;
            match &load_results[k] {
                LoadedData::Loaded(chunk) => {
                    let position = chunk.position;
                    proof {
                        assert(load_result_matches(pre_stored, rem[k as int], lr[k as int]));
                        assert(chunk@ == pre_stored[rem[k as int]]);
                        assert(position == rem[k as int]);
                        assert(chunks@.contains(position));
                    }
                    // load the chunk's carried ticks into the global queue
                    let ghost before_ticks = self.block_ticks@;
                    tick::merge_ticks(&mut self.block_ticks, &chunk.block_ticks);
                    proof {
                        assert(self.block_ticks@ == before_ticks + chunk.block_ticks@);
                        assert(self.block_ticks@.subrange(0, pre_ticks.len() as int)
                            =~= pre_ticks);
                        assert forall|t: int|
                            pre_ticks.len() <= t < self.block_ticks@.len() implies tick_from_stored(
                            pre_stored,
                            chunks@,
                            #[trigger] self.block_ticks@[t],
                        ) by {
                            if t >= before_ticks.len() {
                                assert(self.block_ticks@[t] == chunk.block_ticks@[t
                                    - before_ticks.len()]);
                                assert(chunk@.block_ticks == pre_stored[position].block_ticks);
                                assert(pre_stored[position].block_ticks.contains(
                                    self.block_ticks@[t],
                                ));
                                assert(tick_from_stored(
                                    pre_stored,
                                    chunks@,
                                    self.block_ticks@[t],
                                ));
                            } else {
                                assert(self.block_ticks@[t] == before_ticks[t]);
                                assert(tick_from_stored(pre_stored, chunks@, before_ticks[t]));
                            }
                        }
                        assert(ticks_extended_from(
                            pre_ticks,
                            self.block_ticks@,
                            pre_stored,
                            chunks@,
                        ));
                        assert forall|i2: int| #![trigger old_results[i2]]
                            0 <= i2 < old_results.len() implies (!old_results[i2].1
                            && !pre_cache.dom().contains(old_results[i2].0@.position)
                            && !pre_spawn.dom().contains(old_results[i2].0@.position)) ==> (
                        pre_stored.dom().contains(old_results[i2].0@.position) && ticks_all_in(
                            pre_stored[old_results[i2].0@.position].block_ticks,
                            self.block_ticks@,
                        )) by {
                            if !old_results[i2].1 && !pre_cache.dom().contains(
                                old_results[i2].0@.position,
                            ) && !pre_spawn.dom().contains(old_results[i2].0@.position) {
                                lemma_ticks_all_in_append(
                                    pre_stored[old_results[i2].0@.position].block_ticks,
                                    before_ticks,
                                    chunk.block_ticks@,
                                );
                            }
                        }
                        assert(ticks_all_in(
                            pre_stored[position].block_ticks,
                            self.block_ticks@,
                        )) by {
                            assert forall|t: int|
                                0 <= t < pre_stored[position].block_ticks.len() implies self.block_ticks@.contains(
                                #[trigger] pre_stored[position].block_ticks[t],
                            ) by {
                                assert(self.block_ticks@[before_ticks.len() + t]
                                    == chunk.block_ticks@[t]);
                                assert(chunk.block_ticks@[t] == pre_stored[position].block_ticks[t]);
                            }
                        }
                    }
                    let ghost before_cur = maps::chunk_map_view(self.loaded_chunks);
                    let value = maps::chunk_map_or_insert(
                        &mut self.loaded_chunks,
                        position,
                        chunk.duplicate(),
                    );
                    proof {
                        let cur = maps::chunk_map_view(self.loaded_chunks);
                        assert(pre_stored[position].position == position);
                        if before_cur.dom().contains(position) {
                            assert(cur == before_cur);
                        } else {
                            lemma_cache_insert_keeps_emissions(
                                before_cur,
                                cur,
                                position,
                                chunk@,
                                results@,
                                pre_cache,
                                pre_spawn,
                                pre_stored,
                                g,
                                chunks@,
                            );
                            assert forall|x: ChunkCoord|
                                #[trigger] cur.dom().contains(x) implies pre_cache.dom().contains(
                                x,
                            ) || (chunks@.contains(x) && ((pre_spawn.dom().contains(x) && cur[x]
                                == pre_spawn[x]) || (pre_stored.dom().contains(x) && cur[x]
                                == pre_stored[x]))) by {
                                if x != position {
                                    assert(before_cur.dom().contains(x));
                                    assert(cur[x] == before_cur[x]);
                                }
                            }
                            assert forall|x: ChunkCoord|
                                #[trigger] pre_cache.dom().contains(x) implies cur.dom().contains(
                                x,
                            ) && cur[x] == pre_cache[x] by {
                                assert(before_cur.dom().contains(x) && before_cur[x]
                                    == pre_cache[x]);
                                assert(x != position);
                            }
                        }
                        assert(emission_ok(
                            (value, false),
                            pre_cache,
                            pre_spawn,
                            pre_stored,
                            g,
                            chunks@,
                            cur,
                        ));
                    }
                    results.push((value, false));
                    proof {
                        assert((results@[results@.len() - 1]).0@.position == rem[k as int]);
                        assert forall|i2: int| #![trigger results@[i2]]
                            0 <= i2 < results@.len() implies (!results@[i2].1
                            && !pre_cache.dom().contains(results@[i2].0@.position)
                            && !pre_spawn.dom().contains(results@[i2].0@.position)) ==> (
                        pre_stored.dom().contains(results@[i2].0@.position) && ticks_all_in(
                            pre_stored[results@[i2].0@.position].block_ticks,
                            self.block_ticks@,
                        )) by {
                            if i2 < old_results.len() {
                                assert(old_results[i2] == results@[i2]);
                            } else {
                                assert(results@[i2].0@.position == position);
                            }
                        }
                        assert(loaded_ticks_merged(
                            results@,
                            pre_cache,
                            pre_spawn,
                            pre_stored,
                            self.block_ticks@,
                        ));
                    }
                },
                LoadedData::Missing(pos) => {
                    proof {
                        assert(load_result_matches(pre_stored, rem[k as int], lr[k as int]));
                    }
                    to_generate.push(*pos);
                    proof {
                        assert(to_generate@[to_generate@.len() - 1] == rem[k as int]);
                    }
                },
                LoadedData::Error(pe) => {
                    // a read fault is recovered by regeneration, never
                    // surfaced to the caller
                    proof {
                        assert(load_result_matches(pre_stored, rem[k as int], lr[k as int]));
                    }
                    to_generate.push(pe.0);
                    proof {
                        assert(to_generate@[to_generate@.len() - 1] == rem[k as int]);
                    }
                },
            }
            proof {
                assert forall|j: int| #![trigger chunks@[j]]
                    0 <= j < chunks@.len() implies has_emission_for(results@, chunks@[j])
                    || to_generate@.contains(chunks@[j]) || pending_from(
                    rem,
                    k + 1,
                    chunks@[j],
                ) by {
                    assert(has_emission_for(old_results, chunks@[j]) || old_gen.contains(
                        chunks@[j],
                    ) || pending_from(rem, k as int, chunks@[j]));
                    if pending_from(rem, k as int, chunks@[j]) {
                        let k2 = choose|k2: int|
                            k <= k2 < rem.len() && #[trigger] rem[k2] == chunks@[j];
                        if k2 == k as int {
                            if results@.len() > old_results.len() {
                                assert((results@[results@.len() - 1]).0@.position == chunks@[j]);
                                assert(has_emission_for(results@, chunks@[j]));
                            } else {
                                assert(to_generate@[to_generate@.len() - 1] == chunks@[j]);
                                assert(to_generate@.contains(chunks@[j]));
                            }
                        } else {
                            assert(pending_from(rem, k + 1, chunks@[j]));
                        }
                    } else if has_emission_for(old_results, chunks@[j]) {
                        let k2 = choose|k2: int|
                            0 <= k2 < old_results.len() && (#[trigger] old_results[k2]).0@.position
                                == chunks@[j];
                        assert((results@[k2]).0@.position == chunks@[j]);
                        assert(has_emission_for(results@, chunks@[j]));
                    } else {
                        assert(old_gen.contains(chunks@[j]));
                        let k2 = choose|k2: int|
                            0 <= k2 < old_gen.len() && old_gen[k2] == chunks@[j];
                        assert(to_generate@[k2] == chunks@[j]);
                        assert(to_generate@.contains(chunks@[j]));
                    }
                }
                assert(emissions_cover(chunks@, results@, to_generate@, rem, k + 1));
            }
            k = k + 1;
        }
        // generate what storage could not provide, deduplicating against
        // chunks that a concurrent load of the same coordinate already
        // inserted
        let gn = to_generate.len();
        let ghost gen_list = to_generate@;
        proof {
            assert forall|j: int| #![trigger chunks@[j]]
                0 <= j < chunks@.len() implies has_emission_for(results@, chunks@[j]) || Seq::<
                ChunkCoord,
            >::empty().contains(chunks@[j]) || pending_from(gen_list, 0, chunks@[j]) by {
                assert(has_emission_for(results@, chunks@[j]) || to_generate@.contains(chunks@[j])
                    || pending_from(rem, m as int, chunks@[j]));
                assert(!pending_from(rem, m as int, chunks@[j])) by {
                    if pending_from(rem, m as int, chunks@[j]) {
                        let k2 = choose|k2: int|
                            m <= k2 < rem.len() && #[trigger] rem[k2] == chunks@[j];
                    }
                }
                if to_generate@.contains(chunks@[j]) {
                    let k2 = choose|k2: int|
                        0 <= k2 < to_generate@.len() && to_generate@[k2] == chunks@[j];
                    assert(gen_list[k2] == chunks@[j]);
                    assert(pending_from(gen_list, 0, chunks@[j]));
                }
            }
            assert(emissions_cover(chunks@, results@, Seq::empty(), gen_list, 0));
        }
        let mut gi: usize = 0;
        while gi < gn
            invariant
                0 <= gi <= gn,
                gn == gen_list.len(),
                to_generate@ == gen_list,
                forall|k2: int|
                    0 <= k2 < gen_list.len() ==> chunks@.contains(#[trigger] gen_list[k2])
                        && !pre_cache.dom().contains(gen_list[k2]) && !pre_spawn.dom().contains(
                        gen_list[k2],
                    ),
                maps::chunk_map_view(self.spawn_chunks) == pre_spawn,
                maps::watcher_map_view(self.chunk_watchers) == old(self).watchers(),
                self.chunk_saver.stored() == pre_stored,
                self.chunk_saver.watched() == old(self).chunk_saver.watched(),
                self.chunk_saver.metadata() == old(self).chunk_saver.metadata(),
                self.world_gen == old(self).world_gen,
                g == self.world_gen,
                self.state == old(self).state,
                self.seed == old(self).seed,
                self.level_info == old(self).level_info,
                records_keyed_by_position(maps::chunk_map_view(self.loaded_chunks)),
                forall|c: ChunkCoord|
                    #[trigger] pre_cache.dom().contains(c) ==> maps::chunk_map_view(
                        self.loaded_chunks,
                    ).dom().contains(c) && maps::chunk_map_view(self.loaded_chunks)[c]
                        == pre_cache[c],
                forall|c: ChunkCoord|
                    #[trigger] maps::chunk_map_view(self.loaded_chunks).dom().contains(c)
                        ==> pre_cache.dom().contains(c) || (chunks@.contains(c) && ((
                    pre_spawn.dom().contains(c) && maps::chunk_map_view(self.loaded_chunks)[c]
                        == pre_spawn[c]) || (pre_stored.dom().contains(c) && maps::chunk_map_view(
                        self.loaded_chunks,
                    )[c] == pre_stored[c]) || maps::chunk_map_view(self.loaded_chunks)[c]
                        == g.generated(c))),
                forall|k2: int|
                    0 <= k2 < results@.len() ==> emission_ok(
                        #[trigger] results@[k2],
                        pre_cache,
                        pre_spawn,
                        pre_stored,
                        g,
                        chunks@,
                        maps::chunk_map_view(self.loaded_chunks),
                    ),
                results@.len() + (gn - gi) == chunks@.len(),
                emissions_cover(chunks@, results@, Seq::empty(), gen_list, gi as int),
                ticks_extended_from(pre_ticks, self.block_ticks@, pre_stored, chunks@),
                loaded_ticks_merged(
                    results@,
                    pre_cache,
                    pre_spawn,
                    pre_stored,
                    self.block_ticks@,
                ),
            decreases gn - gi,
        {
            let ghost old_results = results@;
            let pos = to_generate[gi];
            proof {
                assert(gen_list.contains(gen_list[gi as int]));
            }
            match maps::chunk_map_get(&self.loaded_chunks, &pos) {
                Some(existing) => {
                    proof {
                        let cur = maps::chunk_map_view(self.loaded_chunks);
                        assert(cur.dom().contains(gen_list[gi as int]));
                        assert(existing@ == cur[gen_list[gi as int]]);
                        assert(cur[gen_list[gi as int]].position == gen_list[gi as int]);
                        assert(!pre_cache.dom().contains(gen_list[gi as int]));
                        assert(!pre_spawn.dom().contains(gen_list[gi as int]));
                        assert(emission_ok(
                            (existing, true),
                            pre_cache,
                            pre_spawn,
                            pre_stored,
                            g,
                            chunks@,
                            cur,
                        ));
                    }
                    // a load of the same coordinate won the insert; its
                    // record is the canonical one
                    results.push((existing, true));
                    proof {
                        assert((results@[results@.len() - 1]).0@.position == gen_list[gi as int]);
                    }
                },
                None => {
                    let generated_chunk = self.world_gen.generate_chunk(pos);
                    let ghost before_cur = maps::chunk_map_view(self.loaded_chunks);
                    let ghost gv = generated_chunk@;
                    let value = maps::chunk_map_or_insert(
                        &mut self.loaded_chunks,
                        pos,
                        generated_chunk,
                    );
                    proof {
                        let cur = maps::chunk_map_view(self.loaded_chunks);
                        lemma_cache_insert_keeps_emissions(
                            before_cur,
                            cur,
                            pos,
                            gv,
                            results@,
                            pre_cache,
                            pre_spawn,
                            pre_stored,
                            g,
                            chunks@,
                        );
                        assert forall|x: ChunkCoord|
                            #[trigger] cur.dom().contains(x) implies pre_cache.dom().contains(
                            x,
                        ) || (chunks@.contains(x) && ((pre_spawn.dom().contains(x) && cur[x]
                            == pre_spawn[x]) || (pre_stored.dom().contains(x) && cur[x]
                            == pre_stored[x]) || cur[x] == g.generated(x))) by {
                            if x != pos {
                                assert(before_cur.dom().contains(x));
                                assert(cur[x] == before_cur[x]);
                            }
                        }
                        assert forall|x: ChunkCoord|
                            #[trigger] pre_cache.dom().contains(x) implies cur.dom().contains(x)
                            && cur[x] == pre_cache[x] by {
                            assert(before_cur.dom().contains(x) && before_cur[x] == pre_cache[x]);
                            assert(x != pos);
                        }
                        assert(emission_ok(
                            (value, true),
                            pre_cache,
                            pre_spawn,
                            pre_stored,
                            g,
                            chunks@,
                            cur,
                        ));
                    }
                    results.push((value, true));
                    proof {
                        assert((results@[results@.len() - 1]).0@.position == gen_list[gi as int]);
                    }
                },
            }
            proof {
                assert forall|j: int| #![trigger chunks@[j]]
                    0 <= j < chunks@.len() implies has_emission_for(results@, chunks@[j]) || Seq::<
                    ChunkCoord,
                >::empty().contains(chunks@[j]) || pending_from(gen_list, gi + 1, chunks@[j]) by {
                    assert(has_emission_for(old_results, chunks@[j]) || Seq::<
                        ChunkCoord,
                    >::empty().contains(chunks@[j]) || pending_from(
                        gen_list,
                        gi as int,
                        chunks@[j],
                    ));
                    if pending_from(gen_list, gi as int, chunks@[j]) {
                        let k2 = choose|k2: int|
                            gi <= k2 < gen_list.len() && #[trigger] gen_list[k2] == chunks@[j];
                        if k2 == gi as int {
                            assert((results@[results@.len() - 1]).0@.position == chunks@[j]);
                            assert(has_emission_for(results@, chunks@[j]));
                        } else {
                            assert(pending_from(gen_list, gi + 1, chunks@[j]));
                        }
                    } else if has_emission_for(old_results, chunks@[j]) {
                        let k2 = choose|k2: int|
                            0 <= k2 < old_results.len() && (#[trigger] old_results[k2]).0@.position
                                == chunks@[j];
                        assert((results@[k2]).0@.position == chunks@[j]);
                        assert(has_emission_for(results@, chunks@[j]));
                    }
                }
                assert(emissions_cover(chunks@, results@, Seq::empty(), gen_list, gi + 1));
                assert forall|i2: int| #![trigger results@[i2]]
                    0 <= i2 < results@.len() implies (!results@[i2].1
                    && !pre_cache.dom().contains(results@[i2].0@.position)
                    && !pre_spawn.dom().contains(results@[i2].0@.position)) ==> (
                pre_stored.dom().contains(results@[i2].0@.position) && ticks_all_in(
                    pre_stored[results@[i2].0@.position].block_ticks,
                    self.block_ticks@,
                )) by {
                    if i2 < old_results.len() {
                        assert(old_results[i2] == results@[i2]);
                    } else {
                        assert(results@[i2].1);
                    }
                }
                assert(loaded_ticks_merged(
                    results@,
                    pre_cache,
                    pre_spawn,
                    pre_stored,
                    self.block_ticks@,
                ));
            }
            gi = gi + 1;
        }
        proof {
            let cur = maps::chunk_map_view(self.loaded_chunks);
            assert(cache_fetch_evolution(pre_cache, pre_spawn, pre_stored, g, chunks@, cur));
            assert forall|j: int|
                0 <= j < chunks@.len() implies has_emission_for(
                results@,
                #[trigger] chunks@[j],
            ) by {
                assert(has_emission_for(results@, chunks@[j]) || Seq::<
                    ChunkCoord,
                >::empty().contains(chunks@[j]) || pending_from(gen_list, gn as int, chunks@[j]));
                assert(!pending_from(gen_list, gn as int, chunks@[j])) by {
                    if pending_from(gen_list, gn as int, chunks@[j]) {
                        let k2 = choose|k2: int|
                            gn <= k2 < gen_list.len() && #[trigger] gen_list[k2] == chunks@[j];
                    }
                }
                assert(!Seq::<ChunkCoord>::empty().contains(chunks@[j]));
            }
            assert forall|j: int|
                0 <= j < chunks@.len() implies cur.dom().contains(#[trigger] chunks@[j]) by {
                assert(has_emission_for(results@, chunks@[j]));
                let k2 = choose|k2: int|
                    0 <= k2 < results@.len() && (#[trigger] results@[k2]).0@.position == chunks@[j];
                assert(emission_ok(
                    results@[k2],
                    pre_cache,
                    pre_spawn,
                    pre_stored,
                    g,
                    chunks@,
                    cur,
                ));
            }
            assert forall|i2: int, j2: int|
                0 <= i2 < results@.len() && 0 <= j2 < results@.len()
                    && (#[trigger] results@[i2]).0@.position == (#[trigger] results@[j2]).0@.position
                implies results@[i2].0@ == results@[j2].0@ by {
                assert(emission_ok(
                    results@[i2],
                    pre_cache,
                    pre_spawn,
                    pre_stored,
                    g,
                    chunks@,
                    cur,
                ));
                assert(emission_ok(
                    results@[j2],
                    pre_cache,
                    pre_spawn,
                    pre_stored,
                    g,
                    chunks@,
                    cur,
                ));
            }
        }
        results
    }

    /// Loads the given chunks and records each one as a spawn chunk, which
    /// stays resident for the lifetime of the level.
    #[verifier::loop_isolation(false)]
    pub fn read_spawn_chunks(&mut self, chunks: &[ChunkCoord])
        requires
            old(self).wf(),
            old(self).lifecycle() == LevelState::Running,
        ensures
            final(self).wf(),
            final(self).watchers() == old(self).watchers(),
            final(self).lifecycle() == old(self).lifecycle(),
            final(self).same_config_as(old(self)),
            final(self).storage().stored() == old(self).storage().stored(),
            final(self).storage().watched() == old(self).storage().watched(),
            final(self).storage().metadata() == old(self).storage().metadata(),
            forall|j: int|
                0 <= j < chunks@.len() ==> final(self).cache().dom().contains(#[trigger] chunks@[j])
                    && final(self).spawn_cache().dom().contains(chunks@[j])
                    && final(self).spawn_cache()[chunks@[j]] == final(self).cache()[chunks@[j]],
            forall|c: ChunkCoord|
                !chunks@.contains(c) ==> same_record_at(
                    old(self).spawn_cache(),
                    final(self).spawn_cache(),
                    c,
                ),
            forall|c: ChunkCoord|
                final(self).spawn_cache().dom().contains(c) ==> old(
                    self,
                ).spawn_cache().dom().contains(c) || chunks@.contains(c),
    {
        let fetched = self.fetch_chunks(chunks);
        let ghost mid_spawn = self.spawn_cache();
        let ghost mid_cache = self.cache();
        let ghost mid_ticks = self.block_ticks@;
        let ghost emissions = fetched@;
        proof {
            assert(records_keyed_by_position(mid_cache));
        }
        let count = fetched.len();
        let mut fi: usize = 0;
        while fi < count
            invariant
                0 <= fi <= count,
                count == emissions.len(),
                fetched@ == emissions,
                records_keyed_by_position(mid_cache),
                forall|k: int|
                    0 <= k < emissions.len() ==> chunks@.contains(
                        (#[trigger] emissions[k]).0@.position,
                    ) && mid_cache.dom().contains(emissions[k].0@.position) && emissions[k].0@
                        == mid_cache[emissions[k].0@.position],
                maps::chunk_map_view(self.loaded_chunks) == mid_cache,
                maps::watcher_map_view(self.chunk_watchers) == old(self).watchers(),
                self.chunk_saver.stored() == old(self).chunk_saver.stored(),
                self.chunk_saver.watched() == old(self).chunk_saver.watched(),
                self.chunk_saver.metadata() == old(self).chunk_saver.metadata(),
                self.world_gen == old(self).world_gen,
                self.state == old(self).state,
                self.seed == old(self).seed,
                self.level_info == old(self).level_info,
                self.block_ticks@ == mid_ticks,
                records_keyed_by_position(maps::chunk_map_view(self.spawn_chunks)),
                forall|c: ChunkCoord|
                    #[trigger] emitted_among(emissions, fi as int, c) ==> maps::chunk_map_view(
                        self.spawn_chunks,
                    ).dom().contains(c) && maps::chunk_map_view(self.spawn_chunks)[c]
                        == mid_cache[c],
                forall|c: ChunkCoord|
                    !#[trigger] emitted_among(emissions, fi as int, c) ==> same_record_at(
                        mid_spawn,
                        maps::chunk_map_view(self.spawn_chunks),
                        c,
                    ),
            decreases count - fi,
        {
            let e = &fetched[fi];
            let d = e.0.duplicate();
            let ghost before_spawn = maps::chunk_map_view(self.spawn_chunks);
            let ghost p = d.position;
            proof {
                assert(emissions[fi as int].0@.position == d.position);
                assert(d@ == mid_cache[d.position]);
            }
            maps::chunk_map_insert(&mut self.spawn_chunks, d.position, d);
            proof {
                let spawn_now = maps::chunk_map_view(self.spawn_chunks);
                assert(spawn_now == before_spawn.insert(p, mid_cache[p]));
                assert forall|c: ChunkCoord|
                    #[trigger] emitted_among(emissions, fi + 1, c) implies spawn_now.dom().contains(
                    c,
                ) && spawn_now[c] == mid_cache[c] by {
                    let k = choose|k: int|
                        0 <= k < fi + 1 && (#[trigger] emissions[k]).0@.position == c;
                    if k < fi {
                        assert(emitted_among(emissions, fi as int, c));
                        assert(before_spawn.dom().contains(c) && before_spawn[c] == mid_cache[c]);
                    } else {
                        assert(c == p);
                    }
                }
                assert forall|c: ChunkCoord|
                    !#[trigger] emitted_among(emissions, fi + 1, c) implies same_record_at(
                    mid_spawn,
                    spawn_now,
                    c,
                ) by {
                    assert(c != p) by {
                        if c == p {
                            assert(emissions[fi as int].0@.position == c);
                            assert(emitted_among(emissions, fi + 1, c));
                        }
                    }
                    assert(!emitted_among(emissions, fi as int, c)) by {
                        if emitted_among(emissions, fi as int, c) {
                            let k = choose|k: int|
                                0 <= k < fi && (#[trigger] emissions[k]).0@.position == c;
                            assert(emitted_among(emissions, fi + 1, c));
                        }
                    }
                    assert(same_record_at(mid_spawn, before_spawn, c));
                }
            }
            fi = fi + 1;
        }
        proof {
            let spawn_now = maps::chunk_map_view(self.spawn_chunks);
            assert forall|j: int|
                0 <= j < chunks@.len() implies maps::chunk_map_view(
                self.loaded_chunks,
            ).dom().contains(#[trigger] chunks@[j]) && spawn_now.dom().contains(chunks@[j])
                && spawn_now[chunks@[j]] == maps::chunk_map_view(self.loaded_chunks)[chunks@[j]] by {
                assert(has_emission_for(emissions, chunks@[j]));
                let k = choose|k: int|
                    0 <= k < emissions.len() && (#[trigger] emissions[k]).0@.position == chunks@[j];
                assert(emitted_among(emissions, count as int, chunks@[j]));
                assert(spawn_now[chunks@[j]] == mid_cache[chunks@[j]]);
            }
            assert forall|c: ChunkCoord| !chunks@.contains(c) implies same_record_at(
                mid_spawn,
                spawn_now,
                c,
            ) by {
                assert(!emitted_among(emissions, count as int, c)) by {
                    if emitted_among(emissions, count as int, c) {
                        let k = choose|k: int|
                            0 <= k < count && (#[trigger] emissions[k]).0@.position == c;
                        assert(chunks@.contains(emissions[k].0@.position));
                    }
                }
            }
            assert forall|c: ChunkCoord| spawn_now.dom().contains(c) implies mid_spawn.dom().contains(
                c,
            ) || chunks@.contains(c) by {
                if !emitted_among(emissions, count as int, c) {
                    assert(same_record_at(mid_spawn, spawn_now, c));
                } else {
                    let k = choose|k: int|
                        0 <= k < count && (#[trigger] emissions[k]).0@.position == c;
                    assert(chunks@.contains(emissions[k].0@.position));
                }
            }
        }
    }
}

} // verus!
