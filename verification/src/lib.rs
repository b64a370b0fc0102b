//! Composition rules for square image grids: which images fill the tiles,
//! how many times each one appears, and where each tile lands.

pub mod allocation;
pub mod shuffle;
pub mod sampling;
pub mod extension;
pub mod path_order;
pub mod grid;
pub mod settings;
pub mod render;
