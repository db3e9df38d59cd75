use cave_diver::camera::Camera;
use cave_diver::entity::{draw_phase, Entity};
use cave_diver::frame::{Cell, Color, Frame};
use cave_diver::room::Room;
use cave_diver::tree::Tree;

#[test]
fn test_new_frame_is_blank() {
    let frame = Frame::new(0, 0, 4, 3);
    for y in 0..3u16 {
        for x in 0..4u16 {
            let cell = frame.get_char(x, y).unwrap();
            assert_eq!(cell.ch, ' ');
            assert_eq!(cell.fg, None);
            assert_eq!(cell.bg, None);
        }
    }
    assert!(frame.get_char(4, 0).is_none());
    assert!(frame.get_char(0, 3).is_none());
}

#[test]
fn test_set_and_get() {
    let mut frame = Frame::new(0, 0, 10, 9);
    frame.set(3, 2, '@', Some(Color::Yellow), Some(Color::Blue));

    let cell = frame.get_char(3, 2).unwrap();
    assert_eq!(cell.ch, '@');
    assert_eq!(cell.fg, Some(Color::Yellow));
    assert_eq!(cell.bg, Some(Color::Blue));

    // Out-of-bounds writes are dropped silently.
    frame.set(10, 0, 'x', None, None);
    frame.set(0, 9, 'x', None, None);
    assert_eq!(frame.get_char(9, 0).unwrap().ch, ' ');
}

#[test]
fn test_set_char_has_no_colors() {
    let mut frame = Frame::new(0, 0, 10, 9);
    frame.set_char(1, 1, '#');
    let cell = frame.get_char(1, 1).unwrap();
    assert_eq!(cell, Cell { ch: '#', fg: None, bg: None });
}

#[test]
fn test_clear_resets_every_cell_in_place() {
    let mut frame = Frame::new(0, 0, 5, 5);
    frame.set(2, 2, 'x', Some(Color::Green), None);
    frame.clear();
    for y in 0..5u16 {
        for x in 0..5u16 {
            assert_eq!(frame.get_char(x, y).unwrap(), Cell { ch: ' ', fg: None, bg: None });
        }
    }
}

#[test]
fn test_world_write_projects_through_camera() {
    // Camera at (5, 5): world (7, 6) lands on screen (2, 1).
    let mut frame = Frame::new(5, 5, 10, 9);
    frame.set_world_char(7, 6, 'T');
    assert_eq!(frame.get_char(2, 1).unwrap().ch, 'T');
}

#[test]
fn test_world_write_in_ui_strip_is_dropped() {
    // Height 9: the UI strip is the bottom 3 rows, the game region rows 0..6.
    let mut frame = Frame::new(0, 0, 10, 9);

    // Row 5 is the last game row; row 6 is reserved for UI.
    frame.set_world_char(3, 5, 'a');
    frame.set_world_char(3, 6, 'b');

    assert_eq!(frame.get_char(3, 5).unwrap().ch, 'a');
    // The write whose projected row falls inside the UI strip was dropped:
    // the cell is unchanged.
    assert_eq!(frame.get_char(3, 6).unwrap(), Cell { ch: ' ', fg: None, bg: None });
}

#[test]
fn test_world_write_outside_buffer_is_dropped() {
    let mut frame = Frame::new(0, 0, 10, 9);
    frame.set_world_char(-1, 0, 'x');
    frame.set_world_char(10, 0, 'x');
    frame.set_world_char(0, -1, 'x');
    for y in 0..9u16 {
        for x in 0..10u16 {
            assert_eq!(frame.get_char(x, y).unwrap().ch, ' ');
        }
    }
}

#[test]
fn test_draw_text_clips_at_right_edge() {
    let mut frame = Frame::new(0, 0, 8, 4);
    frame.draw_text(5, 1, "hello", Some(Color::White), None);

    assert_eq!(frame.get_char(5, 1).unwrap().ch, 'h');
    assert_eq!(frame.get_char(6, 1).unwrap().ch, 'e');
    assert_eq!(frame.get_char(7, 1).unwrap().ch, 'l');
    assert_eq!(frame.get_char(5, 1).unwrap().fg, Some(Color::White));
    // Nothing wrapped to the next row.
    assert_eq!(frame.get_char(0, 2).unwrap().ch, ' ');
}

#[test]
fn test_room_draw_paints_walls_and_doors() {
    // Frame tall enough that the whole room lies in the game region.
    let mut frame = Frame::new(0, 0, 12, 12);
    let room = Room { x: 0, y: 0, width: 5, height: 5 };
    room.draw(&mut frame);

    // Corners are walls.
    assert_eq!(frame.get_char(0, 0).unwrap().ch, '#');
    assert_eq!(frame.get_char(4, 0).unwrap().ch, '#');
    assert_eq!(frame.get_char(0, 4).unwrap().ch, '#');
    assert_eq!(frame.get_char(4, 4).unwrap().ch, '#');
    // The doors: top-row middle (2, 0) and its bottom counterpart (2, 4),
    // and the middle row's left and right walls.
    assert_eq!(frame.get_char(2, 0).unwrap().ch, '+');
    assert_eq!(frame.get_char(2, 4).unwrap().ch, '+');
    assert_eq!(frame.get_char(0, 2).unwrap().ch, '+');
    assert_eq!(frame.get_char(4, 2).unwrap().ch, '+');
    // The open floor is untouched.
    assert_eq!(frame.get_char(2, 2).unwrap().ch, ' ');
    // Outside the room nothing was painted.
    assert_eq!(frame.get_char(6, 6).unwrap().ch, ' ');
}

#[test]
fn test_tree_draw_paints_one_green_glyph() {
    let mut frame = Frame::new(10, 10, 10, 9);
    let tree = Tree { x: 12, y: 11 };
    tree.draw(&mut frame);

    let cell = frame.get_char(2, 1).unwrap();
    assert_eq!(cell.ch, 'T');
    assert_eq!(cell.fg, Some(Color::Green));
    assert_eq!(cell.bg, None);
    assert_eq!(frame.get_char(3, 1).unwrap().ch, ' ');
}

#[test]
fn test_draw_phase_culls_by_camera_view_and_draws_in_order() {
    let camera = Camera::new(0, 0, 10, 8);
    let mut frame = Frame::new(0, 0, 20, 15);

    let mut features: Vec<Entity> = Vec::new();
    features.push(Entity::Room(Room { x: 0, y: 0, width: 5, height: 5 }));
    // Inside the camera's footprint.
    features.push(Entity::Tree(Tree { x: 3, y: 3 }));
    // Outside the camera's footprint, though inside the frame: culled away.
    features.push(Entity::Tree(Tree { x: 12, y: 3 }));

    draw_phase(&features, &camera, &mut frame);

    assert_eq!(frame.get_char(3, 3).unwrap().ch, 'T');
    assert_eq!(frame.get_char(12, 3).unwrap().ch, ' ');
    // The room's wall survives where nothing later painted over it.
    assert_eq!(frame.get_char(0, 0).unwrap().ch, '#');
    // The tree was declared after the room: at its cell (the room's bottom
    // door), its glyph stands.
    let mut overlap: Vec<Entity> = Vec::new();
    overlap.push(Entity::Room(Room { x: 0, y: 0, width: 5, height: 5 }));
    overlap.push(Entity::Tree(Tree { x: 2, y: 4 }));
    let mut frame2 = Frame::new(0, 0, 20, 15);
    draw_phase(&overlap, &camera, &mut frame2);
    assert_eq!(frame2.get_char(2, 4).unwrap().ch, 'T');
}
