//! World-chunk lifecycle management for a multiplayer game server.
//!
//! The library decides, for any requested chunk coordinate, whether to serve
//! the chunk from the in-memory cache, load it from a storage backend, or
//! generate it anew; it tracks how many observers still need each chunk
//! resident, evicts and flushes chunks nobody watches any more, keeps a
//! queue of scheduled block ticks that travels with chunks across save and
//! load, and drains everything to storage on shutdown.

pub mod position;
pub mod tick;
pub mod chunk;
pub mod maps;
pub mod io;
pub mod generation;
pub mod watcher;
pub mod level;
pub mod memory_io;
pub mod events;
pub mod blocks;

use vstd::prelude::*;

verus! {

} // verus!
