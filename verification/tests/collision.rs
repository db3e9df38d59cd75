use cave_diver::collision_map::CollisionMap;
use cave_diver::entity::{build_collision_map, Entity};
use cave_diver::player::Player;
use cave_diver::room::Room;
use cave_diver::tile::Tile;
use cave_diver::tree::Tree;

#[test]
fn test_tile_walkability() {
    assert!(Tile::new(true).is_walkable());
    assert!(!Tile::new(false).is_walkable());
}

#[test]
fn test_missing_entry_means_walkable() {
    let map = CollisionMap::new();
    assert!(map.get((3, 4)).is_none());
    assert!(map.walkable((3, 4)));
}

#[test]
fn test_insert_and_lookup() {
    let mut map = CollisionMap::new();
    map.insert((3, 4), Tile::new(false));
    map.insert((5, 6), Tile::new(true));

    assert!(!map.walkable((3, 4)));
    assert!(map.walkable((5, 6)));
    assert!(map.walkable((0, 0)));
    assert!(!map.get((3, 4)).unwrap().is_walkable());
}

#[test]
fn test_later_feature_overwrites_earlier_claim() {
    // This room's top-row door sits at world (2, 0) (the first door rule
    // compares the row against the room's x).
    let room = Room { x: 0, y: 0, width: 5, height: 5 };
    let tree = Tree { x: 2, y: 0 };

    // Room first, tree second: the tree's blocked tile wins.
    let mut map = CollisionMap::new();
    room.static_map(&mut map);
    assert!(map.walkable((2, 0)));
    tree.static_map(&mut map);
    assert!(!map.walkable((2, 0)));

    // Tree first, room second: the room's door wins.
    let mut map2 = CollisionMap::new();
    tree.static_map(&mut map2);
    assert!(!map2.walkable((2, 0)));
    room.static_map(&mut map2);
    assert!(map2.walkable((2, 0)));
}

#[test]
fn test_room_claims_walls_not_floor() {
    let room = Room { x: 2, y: 2, width: 6, height: 4 };
    let mut map = CollisionMap::new();
    room.static_map(&mut map);

    // Corners and edges are walls.
    assert!(!map.walkable((2, 2)));
    assert!(!map.walkable((7, 2)));
    assert!(!map.walkable((2, 5)));
    assert!(!map.walkable((4, 2)));

    // The open floor claims nothing: implicitly walkable.
    assert!(map.get((4, 4)).is_none());
    assert!(map.walkable((4, 4)));

    // Outside the room: nothing.
    assert!(map.get((0, 0)).is_none());
}

#[test]
fn test_tree_blocks_only_its_cell() {
    let tree = Tree { x: 15, y: 15 };
    let mut map = CollisionMap::new();
    tree.static_map(&mut map);

    assert!(!map.walkable((15, 15)));
    assert!(map.walkable((14, 15)));
    assert!(map.walkable((16, 15)));
}

#[test]
fn test_player_move_blocked_by_static_map() {
    let mut map = CollisionMap::new();
    map.insert((1, 0), Tile::new(false));

    let mut player = Player::new(0, 0);

    assert!(!player.attempt_move(1, 0, &map));
    assert_eq!((player.x, player.y), (0, 0));

    assert!(player.attempt_move(0, 1, &map));
    assert_eq!((player.x, player.y), (0, 1));

    // A stored walkable tile permits the move.
    let mut map2 = CollisionMap::new();
    map2.insert((1, 0), Tile::new(true));
    let mut player2 = Player::new(0, 0);
    assert!(player2.attempt_move(1, 0, &map2));
    assert_eq!((player2.x, player2.y), (1, 0));
}

#[test]
fn test_player_starts_with_full_health() {
    let player = Player::new(10, 10);
    assert_eq!(player.health.get_current(), 100);
    assert_eq!(player.health.get_max(), 100);
    assert!(player.health.is_alive());
}

#[test]
fn test_build_collision_map_applies_features_in_order() {
    let mut features: Vec<Entity> = Vec::new();
    features.push(Entity::Room(Room { x: 0, y: 0, width: 5, height: 5 }));
    features.push(Entity::Tree(Tree { x: 2, y: 0 }));
    let map = build_collision_map(&features);
    // The tree was declared later: its blocked tile overrides the door.
    assert!(!map.walkable((2, 0)));
    assert!(!map.walkable((0, 0)));
    assert!(map.get((3, 3)).is_none());

    let mut reversed: Vec<Entity> = Vec::new();
    reversed.push(Entity::Tree(Tree { x: 2, y: 0 }));
    reversed.push(Entity::Room(Room { x: 0, y: 0, width: 5, height: 5 }));
    let map2 = build_collision_map(&reversed);
    assert!(map2.walkable((2, 0)));
}
