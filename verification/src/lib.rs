//! Procedural generation of dungeon levels: rooms joined by corridors, caves
//! grown by a cellular automaton, and the terrain composed from both.
//!
//! A level is made in stages. [`placement`] packs rooms onto a map of wall
//! and joins them by the corridors of [`corridor`]; [`level`] turns some of
//! the door candidates into doors and picks the cell where the player
//! starts. [`cave`] grows a cave map. [`compose`] lays the cave over the
//! rooms, closes off what the player cannot reach and repairs the doors.
//! [`overlay`] prepares water and grass, and [`terrain`] runs all of it and
//! lists what stands on each cell.
//!
//! The grids are `grid_2d::Grid`s, reached through [`grid`]; the random draws
//! come from an `Isaac64Rng`, reached through [`random`]. What is walked,
//! filled or joined is stated with the walks of [`flood`] over the cells of
//! [`geometry`] and [`cell`].

pub mod cave;
pub mod cell;
pub mod compose;
pub mod corridor;
pub mod flood;
pub mod game;
pub mod geometry;
pub mod grid;
pub mod level;
pub mod overlay;
pub mod placement;
pub mod random;
pub mod rooms;
pub mod terrain;
