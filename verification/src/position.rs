//! Chunk coordinates and block positions.

use vstd::prelude::*;

verus! {

/// Width of a chunk column in blocks along each horizontal axis.
pub const CHUNK_WIDTH: i32 = 16;

/// Coordinate of one fixed-size horizontal column of the world, as a pair of
/// signed integers. Equality and hashing are stable and cheap.
#[derive(Clone, Copy, PartialEq, Eq, Hash, Structural, Debug)]
pub struct ChunkCoord {
    pub x: i32,
    pub z: i32,
}

impl ChunkCoord {
    pub fn new(x: i32, z: i32) -> (r: ChunkCoord)
        ensures
            r.x == x && r.z == z,
    {
        ChunkCoord { x, z }
    }
}

/// Absolute position of one block in the world.
#[derive(Clone, Copy, PartialEq, Eq, Hash, Structural, Debug)]
pub struct BlockPos {
    pub x: i32,
    pub y: i32,
    pub z: i32,
}

impl BlockPos {
    pub fn new(x: i32, y: i32, z: i32) -> (r: BlockPos)
        ensures
            r.x == x && r.y == y && r.z == z,
    {
        BlockPos { x, y, z }
    }

    /// The chunk column that owns this block position: the floor of each
    /// horizontal component divided by the chunk width.
    pub open spec fn owning_chunk(self) -> ChunkCoord {
        ChunkCoord { x: (self.x as int / 16) as i32, z: (self.z as int / 16) as i32 }
    }

    /// Splits the position into the owning chunk coordinate and the position
    /// relative to that chunk's origin.
    pub fn chunk_and_chunk_relative_position(&self) -> (r: (ChunkCoord, BlockPos))
        ensures
            r.0 == self.owning_chunk(),
            r.1.x == self.x as int - 16 * (r.0.x as int),
            r.1.y == self.y,
            r.1.z == self.z as int - 16 * (r.0.z as int),
            0 <= r.1.x < 16,
            0 <= r.1.z < 16,
    {
        let cx = floor_div_chunk(self.x);
        let cz = floor_div_chunk(self.z);
        let rel = BlockPos { x: self.x - 16 * cx, y: self.y, z: self.z - 16 * cz };
        (ChunkCoord { x: cx, z: cz }, rel)
    }
}

/// Floor division of a block axis value by the chunk width.
fn floor_div_chunk(v: i32) -> (r: i32)
    ensures
        r == v as int / 16,
        v - 16 * r < 16,
        0 <= v - 16 * r,
{
    if v >= 0 {
        v / 16
    } else {
        let q = (v + 1) / 16;
        q - 1
    }
}

} // verus!
