//! In-memory chunk content.

use vstd::prelude::*;
use crate::position::ChunkCoord;
use crate::tick::ScheduledTick;

verus! {

/// Abstract value of a chunk's content: its coordinate, its opaque block and
/// biome payload, and the scheduled ticks carried in its record.
pub struct ChunkDataView {
    pub position: ChunkCoord,
    pub payload: Seq<u8>,
    pub block_ticks: Seq<ScheduledTick>,
}

/// The mutable payload for one chunk coordinate: opaque block and biome
/// bytes, plus the scheduled ticks that travel with the chunk when it is
/// saved or loaded.
#[derive(Clone)]
pub struct ChunkData {
    pub position: ChunkCoord,
    pub payload: Vec<u8>,
    pub block_ticks: Vec<ScheduledTick>,
}

impl View for ChunkData {
    type V = ChunkDataView;

    open spec fn view(&self) -> ChunkDataView {
        ChunkDataView {
            position: self.position,
            payload: self.payload@,
            block_ticks: self.block_ticks@,
        }
    }
}

impl ChunkData {
    /// A fresh chunk record with no pending ticks.
    pub fn new(position: ChunkCoord, payload: Vec<u8>) -> (r: ChunkData)
        ensures
            r@.position == position,
            r@.payload == payload@,
            r@.block_ticks == Seq::<ScheduledTick>::empty(),
    {
        let r = ChunkData { position, payload, block_ticks: Vec::new() };
        proof {
            assert(r.block_ticks@ =~= Seq::<ScheduledTick>::empty());
        }
        r
    }

    /// A copy of this chunk record with the same abstract value.
    pub fn duplicate(&self) -> (r: ChunkData)
        ensures
            r@ == self@,
    {
        let r = ChunkData {
            position: self.position,
            payload: copy_bytes(&self.payload),
            block_ticks: copy_ticks(&self.block_ticks),
        };
        proof {
            assert(r@ =~= self@);
        }
        r
    }
}

fn copy_bytes(v: &Vec<u8>) -> (r: Vec<u8>)
    ensures
        r@ == v@,
{
    let n = v.len();
    let mut r: Vec<u8> = Vec::new();
    let mut i: usize = 0;
    while i < n
        invariant
            0 <= i <= n,
            n == v@.len(),
            r@ == v@.take(i as int),
        decreases n - i,
    {
        r.push(v[i]);
        proof {
            assert(v@.take(i + 1) =~= v@.take(i as int).push(v@[i as int]));
        }
        i = i + 1;
    }
    proof {
        assert(v@.take(n as int) =~= v@);
    }
    r
}

fn copy_ticks(v: &Vec<ScheduledTick>) -> (r: Vec<ScheduledTick>)
    ensures
        r@ == v@,
{
    let n = v.len();
    let mut r: Vec<ScheduledTick> = Vec::new();
    let mut i: usize = 0;
    while i < n
        invariant
            0 <= i <= n,
            n == v@.len(),
            r@ == v@.take(i as int),
        decreases n - i,
    {
        r.push(v[i]);
        proof {
            assert(v@.take(i + 1) =~= v@.take(i as int).push(v@[i as int]));
        }
        i = i + 1;
    }
    proof {
        assert(v@.take(n as int) =~= v@);
    }
    r
}

} // verus!
