use pumpkin_world::generation::{Seed, SeededGenerator};
use pumpkin_world::io::LevelData;
use pumpkin_world::level::{Level, LevelFolder};
use pumpkin_world::memory_io::MemoryChunkIO;
use pumpkin_world::position::{BlockPos, ChunkCoord};
use pumpkin_world::tick::TickPriority;

fn new_level() -> Level<MemoryChunkIO, SeededGenerator> {
    Level::new(
        Seed(7),
        LevelData::new(7),
        LevelFolder { root_folder: "world".to_string(), region_folder: "world/region".to_string() },
        MemoryChunkIO::new(),
        SeededGenerator { seed: Seed(7) },
    )
}

#[test]
fn tick_with_delay_d_is_due_on_call_d() {
    let mut level = new_level();
    let pos = BlockPos::new(0, 0, 0);
    level.schedule_block_tick(5, pos, 3, TickPriority::Normal);
    // calls 1 and 2: not due yet
    assert!(level.get_and_tick_block_ticks().is_empty());
    assert!(level.get_and_tick_block_ticks().is_empty());
    // call 3: due, exactly once
    let due = level.get_and_tick_block_ticks();
    assert_eq!(due.len(), 1);
    assert_eq!(due[0].target_block_id, 5);
    assert_eq!(due[0].delay, 0);
    // call 4: gone
    assert!(level.get_and_tick_block_ticks().is_empty());
    assert!(!level.is_block_tick_scheduled(&pos, 5));
}

#[test]
fn tick_with_delay_zero_is_due_on_the_very_next_call() {
    let mut level = new_level();
    let pos = BlockPos::new(1, 0, 1);
    level.schedule_block_tick(9, pos, 0, TickPriority::High);
    let due = level.get_and_tick_block_ticks();
    assert_eq!(due.len(), 1);
    assert_eq!(due[0].target_block_id, 9);
}

#[test]
fn due_ticks_come_back_sorted_by_priority_then_schedule_order() {
    let mut level = new_level();
    let p1 = BlockPos::new(0, 0, 0);
    let p2 = BlockPos::new(1, 0, 0);
    let p3 = BlockPos::new(2, 0, 0);
    let p4 = BlockPos::new(3, 0, 0);
    level.schedule_block_tick(1, p1, 1, TickPriority::Low);
    level.schedule_block_tick(2, p2, 1, TickPriority::ExtremelyHigh);
    level.schedule_block_tick(3, p3, 1, TickPriority::Low);
    level.schedule_block_tick(4, p4, 1, TickPriority::Normal);
    let due = level.get_and_tick_block_ticks();
    assert_eq!(due.len(), 4);
    assert_eq!(due[0].target_block_id, 2, "lowest rank first");
    assert_eq!(due[1].target_block_id, 4);
    assert_eq!(due[2].target_block_id, 1, "equal priorities keep schedule order");
    assert_eq!(due[3].target_block_id, 3);
}

#[test]
fn ticks_with_different_delays_are_returned_exactly_once_each() {
    let mut level = new_level();
    let p1 = BlockPos::new(0, 0, 0);
    let p2 = BlockPos::new(16, 0, 0);
    level.schedule_block_tick(1, p1, 1, TickPriority::Normal);
    level.schedule_block_tick(2, p2, 2, TickPriority::Normal);
    let first = level.get_and_tick_block_ticks();
    assert_eq!(first.len(), 1);
    assert_eq!(first[0].target_block_id, 1);
    assert!(level.is_block_tick_scheduled(&p2, 2));
    let second = level.get_and_tick_block_ticks();
    assert_eq!(second.len(), 1);
    assert_eq!(second[0].target_block_id, 2);
    assert!(level.get_and_tick_block_ticks().is_empty());
}

#[test]
fn is_scheduled_distinguishes_position_and_block() {
    let mut level = new_level();
    let pos = BlockPos::new(4, 10, 4);
    let other = BlockPos::new(4, 11, 4);
    level.schedule_block_tick(5, pos, 8, TickPriority::Normal);
    assert!(level.is_block_tick_scheduled(&pos, 5));
    assert!(!level.is_block_tick_scheduled(&pos, 6));
    assert!(!level.is_block_tick_scheduled(&other, 5));
}

#[test]
fn block_positions_map_to_owning_chunks() {
    let p = BlockPos::new(17, 64, -1);
    let (chunk, rel) = p.chunk_and_chunk_relative_position();
    assert_eq!(chunk, ChunkCoord::new(1, -1));
    assert_eq!(rel.x, 1);
    assert_eq!(rel.y, 64);
    assert_eq!(rel.z, 15);

    let q = BlockPos::new(-16, 0, -17);
    let (chunk_q, rel_q) = q.chunk_and_chunk_relative_position();
    assert_eq!(chunk_q, ChunkCoord::new(-1, -2));
    assert_eq!(rel_q.x, 0);
    assert_eq!(rel_q.z, 15);

    let o = BlockPos::new(0, 0, 0);
    assert_eq!(o.chunk_and_chunk_relative_position().0, ChunkCoord::new(0, 0));
}
