//! Turn-based simulation core of a grid roguelike.
//!
//! The crate models a world of entities with optional components (positions,
//! combat stats, viewsheds, inventories, single-turn intents) together with a
//! shared spatial map, and advances that world by discrete turns through a
//! fixed phase pipeline: visibility, occupancy indexing, monster decisions,
//! melee resolution, damage application, and item effects, followed by a
//! deferred structural cleanup of entities queued for deletion.
#![verifier::loop_isolation(false)]

pub mod components;
pub mod map;
pub mod world;
pub mod map_indexing_system;
pub mod damage_system;
pub mod melee_combat_system;
pub mod fov;
pub mod visibility_system;
pub mod inventory_system;
pub mod pathing;
pub mod monster_ai_system;
pub mod player;
pub mod state;
pub mod laws;
