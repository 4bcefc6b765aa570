//! Player-facing events that higher layers dispatch to plugins.

use vstd::prelude::*;

verus! {

/// Identity of a connected player, as the session layer numbers them.
#[derive(Clone, Copy, PartialEq, Eq, Structural, Debug)]
pub struct PlayerId(pub u64);

/// An event that occurs when a player toggles their sneaking state.
///
/// If the event is cancelled, the sneaking state will not change.
#[derive(Clone, Copy, PartialEq, Eq, Structural, Debug)]
pub struct PlayerToggleSneakEvent {
    /// The player who is toggling their sneaking state.
    pub player: PlayerId,
    /// Whether the player is now sneaking (true) or not (false).
    pub is_sneaking: bool,
    /// Whether a handler has cancelled the event.
    pub cancelled: bool,
}

impl PlayerToggleSneakEvent {
    /// A new toggle event for the given player and sneaking state, not yet
    /// cancelled.
    pub fn new(player: PlayerId, is_sneaking: bool) -> (r: PlayerToggleSneakEvent)
        ensures
            r.player == player,
            r.is_sneaking == is_sneaking,
            !r.cancelled,
    {
        PlayerToggleSneakEvent { player, is_sneaking, cancelled: false }
    }

    /// Whether the player is now sneaking.
    pub fn is_sneaking(&self) -> (r: bool)
        ensures
            r == self.is_sneaking,
    {
        self.is_sneaking
    }

    /// The player who toggled.
    pub fn get_player(&self) -> (r: PlayerId)
        ensures
            r == self.player,
    {
        self.player
    }
}

} // verus!
