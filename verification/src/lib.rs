//! Simulation and geometry core of a tile-based, terminal-rendered adventure
//! game: grid pathfinding, a static collision map, axis-aligned culling, and
//! camera/viewport projection into a render buffer.

pub mod activity_log;
pub mod bounding_box;
pub mod camera;
pub mod collision_map;
pub mod entity;
pub mod fps;
pub mod frame;
pub mod game_logic;
pub mod goblin;
pub mod health;
pub mod moveable;
pub mod pathfinding;
pub mod player;
pub mod room;
pub mod tile;
pub mod tree;
