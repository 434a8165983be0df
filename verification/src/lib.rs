//! Game logic of a maze-and-lidar exploration game: maze generation, level
//! layout, story sequencing, player steering and target interaction.

pub mod rng;
pub mod maze;
pub mod steps;
pub mod generator;
pub mod spawn;
pub mod text;
pub mod level;
pub mod layout;
pub mod story;
pub mod player;
pub mod target;
pub mod control;
