//! A grid world in which scout and collector robots explore a map,
//! discover resources and bring them back to a central base.
//!
//! The library holds the map, the robots' decision logic (scanning,
//! exploring, breadth-first path finding, collecting, delivering) and the
//! two world orchestrators. Terrain noise, terminal rendering and the
//! simulation threads live in the application around it.

pub mod map;
pub mod path;
pub mod random;
pub mod knowledge;
pub mod conduct;
pub mod robot;
pub mod text;
pub mod world;
