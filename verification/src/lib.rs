//! Verified game logic of the space roguelike: tile grids and level building, field of view,
//! combat, path search and flow fields, movement, crafting, loadouts and loot, the galaxy's
//! locations, the procedural generation of stations, planets and caves, and the map editor's
//! canvas.

pub mod tile;
pub mod item;
pub mod level;
pub mod fov;
pub mod crafting;
pub mod faction;
pub mod components;
pub mod rng;
pub mod map;
pub mod game;
pub mod combat;
pub mod galaxy;
pub mod active_zone;
pub mod locations;
pub mod entities;
pub mod loot;
pub mod planet_grass;
pub mod editor;
pub mod movement;
pub mod timing;
pub mod menu;
pub mod dialogue;
