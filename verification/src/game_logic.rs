//! The decisions of one game tick, separated from input polling and
//! rendering: interpret the tick's input event, move and hurt the player,
//! advance the goblin, write to the log, and recompute the camera. The phase
//! order is fixed: player movement, then the AI agent, then the log, then the
//! camera.

use vstd::prelude::*;

use crate::activity_log::{trimmed, wrapped_lines, ActivityLog};
use crate::camera::Camera;
use crate::collision_map::{walkable_at, CollisionMap};
use crate::goblin::Goblin;
use crate::pathfinding::{adjacent, manhattan, Point};
use crate::player::Player;

verus! {

/// The at-most-one discrete input event of a tick.
#[derive(Clone, Copy, PartialEq, Eq, Structural, Debug)]
pub enum InputEvent {
    Quit,
    MoveLeft,
    MoveRight,
    MoveUp,
    MoveDown,
    DamageGoblin,
    WriteLog,
    Idle,
}

/// The player step an input event asks for.
pub open spec fn move_delta(event: InputEvent) -> (int, int) {
    match event {
        InputEvent::MoveLeft => (-1int, 0int),
        InputEvent::MoveRight => (1int, 0int),
        InputEvent::MoveUp => (0int, -1int),
        InputEvent::MoveDown => (0int, 1int),
        _ => (0int, 0int),
    }
}

/// The height of the UI strip the camera leaves out: a third of the viewport,
/// rounded to the nearest row.
pub open spec fn ui_rows_round(h: int) -> int {
    (2 * h + 3) / 6
}

/// Center the camera on the player for a viewport of the given size, reserving
/// the UI strip, and refresh the cached footprint.
pub fn update_camera(camera: &mut Camera, player_x: i32, player_y: i32, camera_width: u16,
    camera_height: u16)
    requires
        player_x - camera_width / 2 >= i32::MIN,
        player_y - camera_height / 2 >= i32::MIN,
        player_x + camera_width <= i32::MAX,
        player_y + camera_height <= i32::MAX,
    ensures
        final(camera).width == camera_width,
        final(camera).height == camera_height - ui_rows_round(camera_height as int),
        final(camera).x == player_x - camera_width / 2,
        final(camera).y == player_y - (camera_height - ui_rows_round(camera_height as int)) / 2,
        final(camera).bbox_fresh(),
{
    let ui_height = (((camera_height as u32) * 2 + 3) / 6) as u16;
    let game_height = camera_height - ui_height;

    camera.width = camera_width;
    camera.height = game_height;

    let half_w = (camera_width / 2) as i32;
    let half_h = (game_height / 2) as i32;

    camera.x = player_x - half_w;
    camera.y = player_y - half_h;

    camera.update_bbox();
}

/// Apply one tick's decisions, in the fixed phase order. A movement event
/// steps the player exactly when the target cell is walkable under the static
/// map, and a taken step costs the player one hit point. The goblin then
/// advances (toward the player's position as of after the move), taking one
/// point of damage when the event asks for it. A log event appends the given
/// text. Finally the camera re-centers on the player. Returns whether the
/// player asked to quit.
pub fn tick_update(player: &mut Player, goblin: &mut Goblin, camera: &mut Camera,
    log: &mut ActivityLog, static_map: &CollisionMap, event: InputEvent, log_text: Option<&str>,
    camera_width: u16, camera_height: u16) -> (request_exit: bool)
    requires
        i32::MIN < old(player).x < i32::MAX,
        i32::MIN < old(player).y < i32::MAX,
        old(player).health.spec_current() > i32::MIN,
        old(goblin).health.spec_current() > i32::MIN,
        old(player).x - 1 - camera_width / 2 >= i32::MIN,
        old(player).y - 1 - camera_height / 2 >= i32::MIN,
        old(player).x + 1 + camera_width <= i32::MAX,
        old(player).y + 1 + camera_height <= i32::MAX,
    ensures
        request_exit == (event == InputEvent::Quit),
        // The player's step.
        ({
            let (dx, dy) = move_delta(event);
            let target = (((old(player).x + dx) as i32), ((old(player).y + dy) as i32));
            if (dx == 0 && dy == 0) || !walkable_at(static_map@, target) {
                final(player).x == old(player).x && final(player).y == old(player).y && final(player).health.spec_current() == old(player).health.spec_current()
            } else {
                final(player).x == old(player).x + dx && final(player).y == old(player).y + dy
                    && final(player).health.spec_current() == (if old(player).health.spec_current() - 1 < 0 {
                    0
                } else {
                    old(player).health.spec_current() - 1
                })
            }
        }),
        final(player).health.spec_max() == old(player).health.spec_max(),
        // The goblin's tick.
        final(goblin).x == old(goblin).x,
        final(goblin).y == old(goblin).y,
        final(goblin).health.spec_max() == old(goblin).health.spec_max(),
        final(goblin).health.spec_current() == (if event == InputEvent::DamageGoblin {
            if old(goblin).health.spec_current() - 1 < 0 {
                0
            } else {
                old(goblin).health.spec_current() - 1
            }
        } else {
            old(goblin).health.spec_current()
        }),
        old(goblin).spec_cooldown() > 0 ==> final(goblin).spec_cooldown() == old(goblin).spec_cooldown() - 1 && final(goblin).spec_path() == old(goblin).spec_path(),
        old(goblin).spec_cooldown() == 0 ==> final(goblin).spec_cooldown() == 0 && (final(goblin).spec_path() matches Some(p) ==> {
            &&& p.len() > 1
            &&& p[0] == (Point { x: old(goblin).x, y: old(goblin).y })
            &&& p.last() == (Point { x: final(player).x, y: final(player).y })
            &&& p[1] != (Point { x: final(player).x, y: final(player).y })
            &&& p.len() > manhattan(
                (Point { x: old(goblin).x, y: old(goblin).y }),
                (Point { x: final(player).x, y: final(player).y }),
            )
            &&& forall|i: int| 0 <= i < p.len() - 1 ==> adjacent(#[trigger] p[i], p[i + 1])
            &&& forall|i: int, j: int| 0 <= i < j < p.len() ==> p[i] != p[j]
            &&& forall|i: int|
                1 <= i < p.len() ==> walkable_at(static_map@, ((#[trigger] p[i]).x, p[i].y))
        }),
        // The log write.
        ({
            let written = event == InputEvent::WriteLog && log_text is Some;
            if written {
                final(log).log_view() == trimmed(
                    old(log).log_view().push(
                        wrapped_lines(log_text->0@, old(log).spec_width()),
                    ),
                    old(log).spec_height(),
                )
            } else {
                final(log).log_view() == old(log).log_view()
            }
        }),
        final(log).same_placement(*old(log)),
        // The camera re-centered on the player.
        final(camera).width == camera_width,
        final(camera).height == camera_height - ui_rows_round(camera_height as int),
        final(camera).x == final(player).x - camera_width / 2,
        final(camera).y == final(player).y - (camera_height - ui_rows_round(
            camera_height as int,
        )) / 2,
        final(camera).bbox_fresh(),
{
    let mut request_exit = false;
    let mut player_dx: i32 = 0;
    let mut player_dy: i32 = 0;
    let mut damage_goblin = false;
    let mut write_to_log = false;

    match event {
        InputEvent::Quit => {
            request_exit = true;
        },
        InputEvent::MoveLeft => {
            player_dx = -1;
        },
        InputEvent::MoveRight => {
            player_dx = 1;
        },
        InputEvent::MoveUp => {
            player_dy = -1;
        },
        InputEvent::MoveDown => {
            player_dy = 1;
        },
        InputEvent::DamageGoblin => {
            damage_goblin = true;
        },
        InputEvent::WriteLog => {
            write_to_log = true;
        },
        InputEvent::Idle => {},
    }

    if player_dx != 0 || player_dy != 0 {
        if player.attempt_move(player_dx, player_dy, static_map) {
            proof {
                player.health.lemma_bounds();
            }
            player.health.take_damage(1);
        }
    }

    goblin.update(static_map, player);
    if damage_goblin {
        proof {
            goblin.health.lemma_bounds();
        }
        goblin.health.take_damage(1);
    }

    if write_to_log {
        match log_text {
            Some(sentence) => {
                log.add_entry(sentence);
            },
            None => {},
        }
    }

    update_camera(camera, player.x, player.y, camera_width, camera_height);

    request_exit
}

} // verus!
