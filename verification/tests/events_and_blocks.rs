use pumpkin_world::blocks::DirtPathBlock;
use pumpkin_world::events::{PlayerId, PlayerToggleSneakEvent};
use pumpkin_world::tick::TickPriority;

#[test]
fn new_sneak_event_carries_its_fields() {
    let event = PlayerToggleSneakEvent::new(PlayerId(3), true);
    assert_eq!(event.get_player(), PlayerId(3));
    assert!(event.is_sneaking());
    assert!(!event.cancelled);

    let standing = PlayerToggleSneakEvent::new(PlayerId(4), false);
    assert!(!standing.is_sneaking());
}

#[test]
fn dirt_path_placement_rules() {
    let block = DirtPathBlock;
    assert!(block.can_place_at(false));
    assert!(!block.can_place_at(true));
    assert_eq!(block.on_place(false, 100, 10), 100);
    assert_eq!(block.on_place(true, 100, 10), 10);
}

#[test]
fn dirt_path_reverts_when_covered() {
    let block = DirtPathBlock;
    let (state, schedule) = block.get_state_for_neighbor_update(100, true, true);
    assert_eq!(state, 100);
    assert!(schedule);
    let (_, no_schedule) = block.get_state_for_neighbor_update(100, true, false);
    assert!(!no_schedule);
    let (_, sideways) = block.get_state_for_neighbor_update(100, false, true);
    assert!(!sideways);
    assert_eq!(block.on_scheduled_tick(10), 10);
    assert_eq!(block.revert_priority(), TickPriority::Normal);
    assert_eq!(block.revert_delay(), 1);
}
