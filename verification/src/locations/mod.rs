//! Procedural generation of the galaxy's locations.

pub mod cave_gen;
pub mod station_gen;
pub mod planet_gen;
pub mod icy_planet;
pub mod natural_planet;
