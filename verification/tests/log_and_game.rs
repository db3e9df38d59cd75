use cave_diver::activity_log::ActivityLog;
use cave_diver::collision_map::CollisionMap;
use cave_diver::fps::Fps;
use cave_diver::frame::{Color, Frame};
use cave_diver::game_logic::{tick_update, update_camera, InputEvent};
use cave_diver::camera::Camera;
use cave_diver::goblin::Goblin;
use cave_diver::health::Health;
use cave_diver::pathfinding::Point;
use cave_diver::player::Player;
use cave_diver::tile::Tile;

use std::time::Instant;

fn row_text(frame: &Frame, x: u16, y: u16, len: u16) -> String {
    let mut s = String::new();
    for col in x..x + len {
        s.push(frame.get_char(col, y).unwrap().ch);
    }
    s
}

#[test]
fn test_activity_log() {
    let mut log = ActivityLog::new(10, 5, 20, 5);
    log.add_entry("Player attacks the goblin for 15 damage.");
    log.add_entry("Goblin retaliates with a claw attack.");
    log.add_entry("Player uses a health potion.");
    log.add_entry("Goblin is defeated!");

    let mut frame = Frame::new(0, 0, 80, 24);

    log.draw(&mut frame);
    // Expected Output:
    // Drawing at (10, 5): Player attacks the
    // Drawing at (10, 6): goblin for 15
    // Drawing at (10, 7): damage.
    // Drawing at (10, 8): Goblin retaliates
    // Drawing at (10, 9): with a claw
    // Drawing at (10, 10): attack.
    // Since height is 5, only the last 5 lines should be drawn.
}

#[test]
fn test_log_entry_is_wrapped_to_width() {
    let mut log = ActivityLog::new(0, 0, 20, 5);
    log.add_entry("Player attacks the goblin for 15 damage.");

    let mut frame = Frame::new(0, 0, 80, 24);
    log.draw(&mut frame);

    assert_eq!(row_text(&frame, 0, 0, 14), "Player attacks");
    assert_eq!(row_text(&frame, 0, 1, 17), "the goblin for 15");
    assert_eq!(row_text(&frame, 0, 2, 7), "damage.");
    assert_eq!(frame.get_char(0, 0).unwrap().fg, Some(Color::White));
    // The column right after each line keeps its blank.
    assert_eq!(frame.get_char(14, 0).unwrap().ch, ' ');
}

#[test]
fn test_log_trims_oldest_entries_to_height() {
    let mut log = ActivityLog::new(0, 0, 20, 2);
    log.add_entry("one");
    log.add_entry("two");
    log.add_entry("three");

    let mut frame = Frame::new(0, 0, 80, 24);
    log.draw(&mut frame);

    assert_eq!(row_text(&frame, 0, 0, 3), "two");
    assert_eq!(row_text(&frame, 0, 1, 5), "three");
}

#[test]
fn test_log_rewraps_on_update_dimensions() {
    let mut log = ActivityLog::new(0, 0, 20, 5);
    log.add_entry("Player attacks the goblin for 15 damage.");

    log.update_dimensions(0, 0, 30, 5);

    let mut frame = Frame::new(0, 0, 80, 24);
    log.draw(&mut frame);

    // The three 20-column lines are joined back and rewrapped to 30 columns.
    assert_eq!(row_text(&frame, 0, 0, 29), "Player attacks the goblin for");
    assert_eq!(row_text(&frame, 0, 1, 10), "15 damage.");
    assert_eq!(frame.get_char(0, 2).unwrap().ch, ' ');
}

#[test]
fn test_log_clear_forgets_everything() {
    let mut log = ActivityLog::new(0, 0, 20, 5);
    log.add_entry("something happened");
    log.clear();

    let mut frame = Frame::new(0, 0, 80, 24);
    log.draw(&mut frame);

    assert_eq!(frame.get_char(0, 0).unwrap().ch, ' ');
}

#[test]
fn test_health_damage_clamps_at_zero() {
    let mut h = Health::new(10);
    h.take_damage(3);
    assert_eq!(h.get_current(), 7);
    h.take_damage(100);
    assert_eq!(h.get_current(), 0);
    assert!(!h.is_alive());
    assert_eq!(h.get_max(), 10);
}

#[test]
fn test_health_heal_clamps_at_max() {
    let mut h = Health::new(10);
    h.take_damage(5);
    h.heal(2);
    assert_eq!(h.get_current(), 7);
    h.heal(100);
    assert_eq!(h.get_current(), 10);
}

#[test]
fn test_goblin_paths_toward_player() {
    let map = CollisionMap::new();
    let player = Player::new(3, 0);
    let mut goblin = Goblin::new(0, 0);

    goblin.update(&map, &player);

    let path = goblin.current_path.as_ref().unwrap();
    assert_eq!(path.len(), 4);
    assert_eq!(path[0], Point { x: 0, y: 0 });
    assert_eq!(path[3], Point { x: 3, y: 0 });
    assert_ne!(path[1], Point { x: 3, y: 0 });
}

#[test]
fn test_goblin_drops_path_when_player_is_next() {
    let map = CollisionMap::new();
    let player = Player::new(1, 0);
    let mut goblin = Goblin::new(0, 0);

    goblin.update(&map, &player);
    assert!(goblin.current_path.is_none());
}

#[test]
fn test_goblin_drops_trivial_path() {
    let map = CollisionMap::new();
    let player = Player::new(2, 2);
    let mut goblin = Goblin::new(2, 2);

    goblin.update(&map, &player);
    assert!(goblin.current_path.is_none());
}

#[test]
fn test_goblin_cooldown_counts_down() {
    let map = CollisionMap::new();
    let player = Player::new(9, 9);
    let mut goblin = Goblin::new(0, 0);
    goblin.move_cooldown = 3;

    goblin.update(&map, &player);
    assert_eq!(goblin.move_cooldown, 2);
    assert!(goblin.current_path.is_none());
}

#[test]
fn test_goblin_attack_hurts_player() {
    let goblin = Goblin::new(0, 0);
    let mut player = Player::new(1, 0);
    goblin.attack(&mut player);
    assert_eq!(player.health.get_current(), 99);
}

#[test]
fn test_goblin_draw_paints_glyph_hearts_and_path_dots() {
    let mut goblin = Goblin::new(5, 5);
    goblin.health.take_damage(3);
    goblin.current_path = Some(vec![
        Point { x: 5, y: 5 },
        Point { x: 6, y: 5 },
        Point { x: 7, y: 5 },
        Point { x: 8, y: 5 },
    ]);

    let mut frame = Frame::new(0, 0, 20, 15);
    goblin.draw(&mut frame);

    // The goblin's glyph.
    assert_eq!(frame.get_char(5, 5).unwrap().ch, 'G');

    // Ten hearts centered above it: seven filled, three hollow, in blue.
    for i in 0..7 {
        assert_eq!(frame.get_char(i, 4).unwrap().ch, '\u{2665}');
    }
    for i in 7..10 {
        assert_eq!(frame.get_char(i, 4).unwrap().ch, '\u{2661}');
    }
    assert_eq!(frame.get_char(0, 4).unwrap().fg, Some(Color::Blue));
    assert_eq!(frame.get_char(10, 4).unwrap().ch, ' ');

    // Debug dots on the path's interior points only.
    assert_eq!(frame.get_char(6, 5).unwrap().ch, '\u{00b7}');
    assert_eq!(frame.get_char(7, 5).unwrap().ch, '\u{00b7}');
    assert_eq!(frame.get_char(8, 5).unwrap().ch, ' ');
}

#[test]
fn test_fps_counts_frames() {
    let mut fps = Fps { last_frame: Instant::now(), frames: 0, fps: 0 };
    fps.update();
    assert_eq!(fps.frames, 1);
}

#[test]
fn test_update_camera_centers_on_player() {
    let mut cam = Camera::new(0, 0, 80, 24);
    update_camera(&mut cam, 10, 10, 80, 24);

    // A third of 24 rows, rounded, is reserved for UI: 16 rows remain.
    assert_eq!(cam.width, 80);
    assert_eq!(cam.height, 16);
    assert_eq!(cam.x, 10 - 40);
    assert_eq!(cam.y, 10 - 8);
    assert_eq!(cam.camera_view.left, -30);
    assert_eq!(cam.camera_view.right, 50);
}

#[test]
fn test_tick_blocked_move_keeps_player_in_place() {
    let mut map = CollisionMap::new();
    map.insert((1, 0), Tile::new(false));
    let mut player = Player::new(0, 0);
    let mut goblin = Goblin::new(20, 10);
    let mut camera = Camera::new(0, 0, 80, 24);
    let mut log = ActivityLog::new(0, 17, 80, 7);

    let quit = tick_update(
        &mut player,
        &mut goblin,
        &mut camera,
        &mut log,
        &map,
        InputEvent::MoveRight,
        None,
        80,
        24,
    );

    assert!(!quit);
    assert_eq!((player.x, player.y), (0, 0));
    assert_eq!(player.health.get_current(), 100);
}

#[test]
fn test_tick_taken_move_costs_one_hit_point() {
    let map = CollisionMap::new();
    let mut player = Player::new(0, 0);
    let mut goblin = Goblin::new(20, 10);
    let mut camera = Camera::new(0, 0, 80, 24);
    let mut log = ActivityLog::new(0, 17, 80, 7);

    let quit = tick_update(
        &mut player,
        &mut goblin,
        &mut camera,
        &mut log,
        &map,
        InputEvent::MoveDown,
        None,
        80,
        24,
    );

    assert!(!quit);
    assert_eq!((player.x, player.y), (0, 1));
    assert_eq!(player.health.get_current(), 99);
    // The camera followed the player.
    assert_eq!(camera.x, 0 - 40);
    assert_eq!(camera.y, 1 - 8);
}

#[test]
fn test_tick_quit_and_damage_events() {
    let map = CollisionMap::new();
    let mut player = Player::new(0, 0);
    let mut goblin = Goblin::new(20, 10);
    let mut camera = Camera::new(0, 0, 80, 24);
    let mut log = ActivityLog::new(0, 17, 80, 7);

    let quit = tick_update(
        &mut player,
        &mut goblin,
        &mut camera,
        &mut log,
        &map,
        InputEvent::DamageGoblin,
        None,
        80,
        24,
    );
    assert!(!quit);
    assert_eq!(goblin.health.get_current(), 9);

    let quit2 = tick_update(
        &mut player,
        &mut goblin,
        &mut camera,
        &mut log,
        &map,
        InputEvent::Quit,
        None,
        80,
        24,
    );
    assert!(quit2);
    assert_eq!(goblin.health.get_current(), 9);
}

#[test]
fn test_tick_write_log_event_appends_entry() {
    let map = CollisionMap::new();
    let mut player = Player::new(0, 0);
    let mut goblin = Goblin::new(20, 10);
    let mut camera = Camera::new(0, 0, 80, 24);
    let mut log = ActivityLog::new(0, 0, 80, 7);

    tick_update(
        &mut player,
        &mut goblin,
        &mut camera,
        &mut log,
        &map,
        InputEvent::WriteLog,
        Some("The quick brown fox jumps over the lazy dog."),
        80,
        24,
    );

    let mut frame = Frame::new(0, 0, 80, 24);
    log.draw(&mut frame);
    assert_eq!(row_text(&frame, 0, 0, 9), "The quick");
}
