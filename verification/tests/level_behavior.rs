use pumpkin_world::chunk::ChunkData;
use pumpkin_world::generation::{Seed, SeededGenerator, WorldGenerator};
use pumpkin_world::io::{ChunkIO, LevelData, LoadedData};
use pumpkin_world::level::{Level, LevelFolder, LevelState};
use pumpkin_world::memory_io::MemoryChunkIO;
use pumpkin_world::position::{BlockPos, ChunkCoord};
use pumpkin_world::tick::TickPriority;

fn new_level() -> Level<MemoryChunkIO, SeededGenerator> {
    Level::new(
        Seed(42),
        LevelData::new(42),
        LevelFolder { root_folder: "world".to_string(), region_folder: "world/region".to_string() },
        MemoryChunkIO::new(),
        SeededGenerator { seed: Seed(42) },
    )
}

fn coord(x: i32, z: i32) -> ChunkCoord {
    ChunkCoord::new(x, z)
}

#[test]
fn begin_then_stop_watching_reports_eviction_eligible() {
    let mut level = new_level();
    let coords = [coord(0, 0), coord(1, 0), coord(-3, 7)];
    level.mark_chunks_as_newly_watched(&coords);
    for c in &coords {
        assert!(level.is_chunk_watched(c));
    }
    let eligible = level.mark_chunks_as_not_watched(&coords);
    assert_eq!(eligible, coords.to_vec());
    for c in &coords {
        assert!(!level.is_chunk_watched(c));
    }
}

#[test]
fn stop_watching_unknown_coordinate_is_a_no_op() {
    let mut level = new_level();
    let eligible = level.mark_chunks_as_not_watched(&[coord(9, 9)]);
    assert!(eligible.is_empty());
    assert!(!level.is_chunk_watched(&coord(9, 9)));
}

#[test]
fn watcher_counts_nest() {
    let mut level = new_level();
    level.mark_chunk_as_newly_watched(coord(2, 2));
    level.mark_chunk_as_newly_watched(coord(2, 2));
    assert!(!level.mark_chunk_as_not_watched(coord(2, 2)));
    assert!(level.is_chunk_watched(&coord(2, 2)));
    assert!(level.mark_chunk_as_not_watched(coord(2, 2)));
    assert!(!level.is_chunk_watched(&coord(2, 2)));
}

#[test]
fn fetch_generates_then_serves_from_cache() {
    let mut level = new_level();
    let c = coord(0, 0);
    level.mark_chunks_as_newly_watched(&[c]);
    let first = level.fetch_chunks(&[c]);
    assert_eq!(first.len(), 1);
    assert!(first[0].1, "a never-seen chunk is freshly generated");
    let generated = SeededGenerator { seed: Seed(42) }.generate_chunk(c);
    assert_eq!(first[0].0.position, generated.position);
    assert_eq!(first[0].0.payload, generated.payload);

    level.mark_chunks_as_newly_watched(&[c]);
    let second = level.fetch_chunks(&[c]);
    assert_eq!(second.len(), 1);
    assert!(!second[0].1, "a cache-resident chunk is not regenerated");
    assert_eq!(second[0].0.payload, first[0].0.payload);
    assert_eq!(level.loaded_chunk_count(), 1);
}

#[test]
fn fetch_of_resident_and_new_coordinate_emits_exactly_two() {
    let mut level = new_level();
    let resident = coord(0, 0);
    let fresh = coord(5, -5);
    level.fetch_chunks(&[resident]);
    let out = level.fetch_chunks(&[fresh, resident]);
    assert_eq!(out.len(), 2, "one emission for each requested coordinate");
    let mut seen = [false, false];
    for (chunk, _) in &out {
        if chunk.position == resident {
            seen[0] = true;
        }
        if chunk.position == fresh {
            seen[1] = true;
        }
    }
    assert!(seen[0] && seen[1]);
}

#[test]
fn duplicate_requests_resolve_to_the_same_record() {
    let mut level = new_level();
    let c = coord(7, 7);
    let out = level.fetch_chunks(&[c, c]);
    assert_eq!(out.len(), 2);
    assert_eq!(out[0].0.position, out[1].0.position);
    assert_eq!(out[0].0.payload, out[1].0.payload);
    assert_eq!(level.loaded_chunk_count(), 1, "both requests share one cache entry");
}

#[test]
fn eviction_flushes_and_refetch_round_trips() {
    let mut level = new_level();
    let c = coord(0, 0);
    // the tick's block position lies in chunk (0, 0)
    let pos = BlockPos::new(3, 64, 5);
    level.mark_chunks_as_newly_watched(&[c]);
    let first = level.fetch_chunks(&[c]);
    assert!(first[0].1);
    level.schedule_block_tick(77, pos, 10, TickPriority::Normal);
    assert!(level.is_block_tick_scheduled(&pos, 77));

    let eligible = level.mark_chunks_as_not_watched(&[c]);
    assert_eq!(eligible, [c].to_vec());
    level.clean_chunks(&eligible);
    assert!(level.try_get_chunk(c).is_none(), "the chunk left the cache");
    assert!(
        !level.is_block_tick_scheduled(&pos, 77),
        "the tick travelled into the flushed record"
    );

    // the flushed record is in storage, ticks included
    let loaded = level.chunk_saver.fetch_chunks(&[c]);
    match &loaded[0] {
        LoadedData::Loaded(d) => {
            assert_eq!(d.position, c);
            assert_eq!(d.payload, first[0].0.payload);
            assert_eq!(d.block_ticks.len(), 1);
            assert_eq!(d.block_ticks[0].target_block_id, 77);
        },
        _ => panic!("the flushed chunk must be stored"),
    }

    // a re-fetch loads it back, content equal, ticks rehydrated
    let again = level.fetch_chunks(&[c]);
    assert!(!again[0].1, "the chunk is loaded from storage, not regenerated");
    assert_eq!(again[0].0.payload, first[0].0.payload);
    assert!(level.is_block_tick_scheduled(&pos, 77));
}

#[test]
fn eviction_skips_watched_chunks() {
    let mut level = new_level();
    let c = coord(1, 1);
    level.mark_chunks_as_newly_watched(&[c]);
    level.fetch_chunks(&[c]);
    level.clean_chunks(&[c]);
    assert!(level.try_get_chunk(c).is_some(), "a watched chunk stays resident");
}

#[test]
fn storage_read_fault_regenerates() {
    let mut level = new_level();
    let c = coord(4, 4);
    level.chunk_saver.fail_reads.push(c);
    let out = level.fetch_chunks(&[c]);
    assert_eq!(out.len(), 1);
    assert!(out[0].1, "a chunk lost to a read fault is regenerated");
    let generated = SeededGenerator { seed: Seed(42) }.generate_chunk(c);
    assert_eq!(out[0].0.payload, generated.payload);
}

#[test]
fn write_fault_still_evicts_and_regenerates_later() {
    let mut level = new_level();
    let c = coord(6, 0);
    level.fetch_chunks(&[c]);
    level.chunk_saver.fail_writes = true;
    level.clean_chunks(&[c]);
    assert!(level.try_get_chunk(c).is_none());
    level.chunk_saver.fail_writes = false;
    let out = level.fetch_chunks(&[c]);
    assert!(out[0].1, "nothing was stored, so the chunk is regenerated");
}

#[test]
fn shutdown_flushes_everything_and_empties_the_level() {
    let mut level = new_level();
    let watched = coord(0, 0);
    let unwatched = coord(1, 0);
    level.mark_chunks_as_newly_watched(&[watched]);
    let out = level.fetch_chunks(&[watched, unwatched]);
    assert_eq!(out.len(), 2);
    assert_eq!(level.loaded_chunk_count(), 2);

    level.shutdown();
    assert_eq!(level.current_lifecycle(), LevelState::Closed);
    assert_eq!(level.loaded_chunk_count(), 0, "the cache is empty after shutdown");
    assert!(!level.is_chunk_watched(&watched), "the watcher table is empty after shutdown");

    // every chunk was flushed, watched or not
    for c in [watched, unwatched] {
        match &level.chunk_saver.fetch_chunks(&[c])[0] {
            LoadedData::Loaded(d) => assert_eq!(d.position, c),
            _ => panic!("shutdown must flush every resident chunk"),
        }
    }
}

#[test]
fn spawn_chunks_stay_resident() {
    let mut level = new_level();
    let c = coord(0, 0);
    level.read_spawn_chunks(&[c]);
    assert_eq!(level.loaded_chunk_count(), 1);
    // no watcher, yet eviction leaves spawn data available to a later fetch
    level.clean_chunks(&[c]);
    let out = level.fetch_chunks(&[c]);
    assert!(!out[0].1, "the spawn chunk is served without regeneration");
}

#[test]
fn clean_memory_prunes_unwatched_entries() {
    let mut level = new_level();
    let kept = coord(0, 0);
    let pruned = coord(2, 2);
    level.mark_chunks_as_newly_watched(&[kept]);
    level.fetch_chunks(&[kept, pruned]);
    assert_eq!(level.loaded_chunk_count(), 2);
    level.clean_memory();
    assert_eq!(level.loaded_chunk_count(), 1);
    assert!(level.try_get_chunk(kept).is_some());
    assert!(level.try_get_chunk(pruned).is_none());
    let cached = level.cached_coords();
    assert_eq!(cached, [kept].to_vec());
}

#[test]
fn metadata_is_persisted_on_shutdown() {
    let mut level = new_level();
    assert_eq!(level.chunk_saver.world_info(), None);
    level.shutdown();
    assert_eq!(level.chunk_saver.world_info(), Some(LevelData::new(42)));
}

#[test]
fn metadata_write_failure_does_not_stop_shutdown() {
    let mut level = new_level();
    level.fetch_chunks(&[coord(0, 0)]);
    level.chunk_saver.fail_writes = true;
    level.shutdown();
    assert_eq!(level.current_lifecycle(), LevelState::Closed);
    assert_eq!(level.chunk_saver.world_info(), None);
    assert_eq!(level.loaded_chunk_count(), 0);
}

#[test]
fn chunk_data_round_trip_through_duplicate() {
    let mut payload = Vec::new();
    payload.push(1u8);
    payload.push(2u8);
    let d = ChunkData::new(coord(1, 2), payload);
    let copy = d.duplicate();
    assert_eq!(copy.position, d.position);
    assert_eq!(copy.payload, d.payload);
    assert_eq!(copy.block_ticks.len(), 0);
}
