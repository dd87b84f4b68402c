//! A turn-based world simulator for a terminal adventure: a player walks a
//! graph of fixed-size map sectors, fights or forages from spawned entities
//! and manages hunger, thirst and health under a configurable difficulty.

pub mod difficulty;
pub mod item;
pub mod map;
pub mod player;
pub mod entity;
pub mod sector;
pub mod input;
pub mod chance;
pub mod world;
pub mod save;
pub mod world_map;
