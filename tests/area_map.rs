use spatial_store::area_map::{handle_area_subscribe, AreaMap};
use spatial_store::geometry::{cube_area, CubeArea, Position};

fn pos(x: i64, y: i64, z: i64) -> Position {
    Position { x, y, z }
}

#[test]
fn cube_area_floors_negative_coordinates() {
    assert_eq!(cube_area(pos(-1, 0, 15), 16), CubeArea { cell_x: -1, cell_y: 0, cell_z: 0 });
    assert_eq!(cube_area(pos(-16, -17, 16), 16), CubeArea { cell_x: -1, cell_y: -2, cell_z: 1 });
}

#[test]
fn subscribe_covers_whole_cube_only() {
    let mut map = AreaMap::new(16, "earth".to_string());
    assert!(map.add_subscription(7, pos(1, 2, 3)));
    assert!(map.is_peer_subscribed(7, pos(15, 0, 10)));
    assert!(!map.is_peer_subscribed(7, pos(16, 0, 10)));
    assert!(!map.is_peer_subscribed(7, pos(-1, 0, 10)));
    assert!(!map.is_peer_subscribed(8, pos(1, 2, 3)));
}

#[test]
fn subscribe_twice_reports_existing_membership() {
    let mut map = AreaMap::new(8, "earth".to_string());
    assert!(map.add_subscription(1, pos(0, 0, 0)));
    assert!(!map.add_subscription(1, pos(7, 7, 7)));
    assert_eq!(map.get_subscribed_peers(pos(0, 0, 0)), vec![1]);
}

#[test]
fn unsubscribe_then_not_subscribed() {
    let mut map = AreaMap::new(16, "earth".to_string());
    map.add_subscription(7, pos(1, 2, 3));
    map.add_subscription(9, pos(1, 2, 3));
    assert!(map.remove_subscription(7, pos(4, 4, 4)));
    assert!(!map.is_peer_subscribed(7, pos(1, 2, 3)));
    assert!(map.is_peer_subscribed(9, pos(1, 2, 3)));
    assert!(!map.remove_subscription(7, pos(1, 2, 3)));
}

#[test]
fn unsubscribing_last_member_removes_cell() {
    let mut map = AreaMap::new(16, "earth".to_string());
    map.add_subscription(7, pos(1, 2, 3));
    assert!(map.remove_subscription(7, pos(1, 2, 3)));
    assert!(map.get_subscribed_peers(pos(1, 2, 3)).is_empty());
    assert!(!map.remove_subscription(7, pos(1, 2, 3)));
}

#[test]
fn subscribed_peers_of_absent_cell_is_empty() {
    let map = AreaMap::new(4, "earth".to_string());
    assert!(map.get_subscribed_peers(pos(100, -100, 3)).is_empty());
}

#[test]
fn subscribed_peers_lists_each_member_once() {
    let mut map = AreaMap::new(4, "earth".to_string());
    map.add_subscription(3, pos(0, 0, 0));
    map.add_subscription(5, pos(1, 1, 1));
    map.add_subscription(3, pos(2, 2, 2));
    let mut peers = map.get_subscribed_peers(pos(3, 3, 3));
    peers.sort();
    assert_eq!(peers, vec![3, 5]);
}

#[test]
fn remove_peer_clears_every_cell() {
    let mut map = AreaMap::new(10, "earth".to_string());
    let cells = [pos(0, 0, 0), pos(10, 0, 0), pos(-5, 20, 30)];
    for p in cells {
        map.add_subscription(42, p);
    }
    map.add_subscription(43, pos(0, 0, 0));
    assert!(map.remove_peer(42));
    for p in cells {
        assert!(!map.is_peer_subscribed(42, p));
    }
    assert!(map.is_peer_subscribed(43, pos(0, 0, 0)));
    assert!(!map.remove_peer(42));
}

#[test]
fn remove_peer_leaves_emptied_cells_in_place() {
    let mut map = AreaMap::new(10, "earth".to_string());
    map.add_subscription(42, pos(0, 0, 0));
    assert!(map.remove_peer(42));
    assert!(map.get_subscribed_peers(pos(0, 0, 0)).is_empty());
    // the emptied cell is still present: unsubscribing drops it, reporting no removal
    assert!(!map.remove_subscription(42, pos(0, 0, 0)));
    assert!(map.add_subscription(42, pos(0, 0, 0)));
}

#[test]
fn area_map_keeps_configuration() {
    let map = AreaMap::new(32, "moon".to_string());
    assert_eq!(map.cube_size(), 32);
    assert_eq!(map.world_name(), "moon");
}

#[test]
fn subscribe_message_without_position_is_ignored() {
    let mut map = AreaMap::new(16, "earth".to_string());
    assert!(!handle_area_subscribe(&mut map, 5, None));
    assert!(map.get_subscribed_peers(pos(0, 0, 0)).is_empty());
    assert!(handle_area_subscribe(&mut map, 5, Some(pos(0, 0, 0))));
    assert!(map.is_peer_subscribed(5, pos(3, 3, 3)));
}
