//! A tile-world simulation kernel for a terminal roguelike: the terrain grid and
//! what is known of it, the entities and their components, field of view,
//! movement, and the order in which the systems of one tick run.

pub mod components;
pub mod dice;
pub mod fov;
pub mod generation;
pub mod geometry;
pub mod keys;
pub mod map;
pub mod movement;
pub mod render;
pub mod schedule;
pub mod simulation;
pub mod spawn;
pub mod visibility;
pub mod world;

pub use components::{Color, Cursor, LeftMover, Position, Renderable, Viewshed};
pub use fov::{compute_visible, mark_layer, SIGHT_LIMIT};
pub use generation::{draw_trial, draw_trials, spawn_point, Trial};
pub use geometry::{xy_idx, Coord};
pub use keys::{command_for_key, Command};
pub use map::{BoundsError, TerrainType, TileMap};
pub use movement::{destination_of, drift, handle_input, move_left, step, wrap, wrap_position};
pub use render::{cls, draw_cursor, draw_map, draw_things, DrawOp};
pub use schedule::{Access, ConfigError, Schedule, System};
pub use simulation::{Frame, Simulation};
pub use spawn::{add_cursor, add_npcs, add_player};
pub use visibility::{reveal_map, update_viewsheds};
pub use world::{ComponentSet, Entity, World};
