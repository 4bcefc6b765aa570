//! Block behaviour rules. The world and its block registry are external
//! collaborators; each rule here is the pure decision the behaviour makes,
//! from what the world reports to what the block does.

use vstd::prelude::*;
use crate::tick::TickPriority;

verus! {

/// The dirt-path block: a path trodden into dirt. It may only sit under a
/// non-solid block and reverts to plain dirt, by a scheduled tick, when that
/// stops holding.
#[derive(Clone, Copy, PartialEq, Eq, Structural, Debug)]
pub struct DirtPathBlock;

impl DirtPathBlock {
    /// A dirt path may be placed only where the block above is not solid.
    pub fn can_place_at(&self, above_is_solid: bool) -> (r: bool)
        ensures
            r == !above_is_solid,
    {
        !above_is_solid
    }

    /// The block state placement settles on: the path's own default state
    /// where it can stand, plain dirt's default state where it cannot.
    pub fn on_place(&self, above_is_solid: bool, path_state: u16, dirt_state: u16) -> (r: u16)
        ensures
            r == if above_is_solid {
                dirt_state
            } else {
                path_state
            },
    {
        if !self.can_place_at(above_is_solid) {
            return dirt_state;
        }
        path_state
    }

    /// On a neighbor update from above: the state stays as it is, but when
    /// the block above became solid a revert tick must be scheduled, with
    /// normal priority and a delay of one.
    pub fn get_state_for_neighbor_update(
        &self,
        state: u16,
        direction_is_up: bool,
        above_is_solid: bool,
    ) -> (r: (u16, bool))
        ensures
            r.0 == state,
            r.1 == (direction_is_up && above_is_solid),
    {
        let schedule_revert = direction_is_up && !self.can_place_at(above_is_solid);
        (state, schedule_revert)
    }

    /// The scheduled revert turns the path into plain dirt.
    pub fn on_scheduled_tick(&self, dirt_state: u16) -> (r: u16)
        ensures
            r == dirt_state,
    {
        dirt_state
    }

    /// The priority the revert tick is scheduled with.
    pub fn revert_priority(&self) -> (r: TickPriority)
        ensures
            r == TickPriority::Normal,
    {
        TickPriority::Normal
    }

    /// The delay the revert tick is scheduled with.
    pub fn revert_delay(&self) -> (r: u16)
        ensures
            r == 1,
    {
        1
    }
}

} // verus!
