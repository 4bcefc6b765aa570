//! The procedural generator interface: a pure function from the world seed
//! and a chunk coordinate to freshly created chunk content.

use vstd::prelude::*;
use crate::chunk::{ChunkData, ChunkDataView};
use crate::position::ChunkCoord;

verus! {

/// The seed from which the whole world derives.
#[derive(Clone, Copy, PartialEq, Eq, Structural, Debug)]
pub struct Seed(pub u64);

/// The terrain generator: side-effect-free and deterministic, safe to invoke
/// redundantly for different coordinates. The level never invokes it twice
/// concurrently for the same coordinate; its output for a coordinate is
/// always the same content, at that coordinate, with no pending ticks.
pub trait WorldGenerator: Sized {
    /// The content this generator produces at a coordinate.
    spec fn generated(&self, at: ChunkCoord) -> ChunkDataView;

    /// Produces the chunk content for the given coordinate.
    fn generate_chunk(&self, at: ChunkCoord) -> (r: ChunkData)
        ensures
            r@ == self.generated(at),
            r@.position == at,
            r@.block_ticks.len() == 0,
    ;
}

/// A minimal built-in generator: every chunk carries one payload byte derived
/// from the seed. The full procedural terrain generator is an external
/// collaborator satisfying the same interface.
pub struct SeededGenerator {
    pub seed: Seed,
}

impl WorldGenerator for SeededGenerator {
    open spec fn generated(&self, at: ChunkCoord) -> ChunkDataView {
        ChunkDataView {
            position: at,
            payload: seq![(self.seed.0 % 251) as u8],
            block_ticks: Seq::empty(),
        }
    }

    fn generate_chunk(&self, at: ChunkCoord) -> (r: ChunkData)
        ensures
            r@ == self.generated(at),
            r@.position == at,
            r@.block_ticks.len() == 0,
    {
        let mut payload: Vec<u8> = Vec::new();
        payload.push((self.seed.0 % 251) as u8);
        let r = ChunkData::new(at, payload);
        proof {
            assert(r@ =~= self.generated(at));
        }
        r
    }
}

} // verus!
