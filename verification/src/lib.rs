//! Zoned equalization of gas between the turfs of a tile map.

pub mod amount;
pub mod balance;
pub mod depressurize;
pub mod fast;
pub mod finalize;
pub mod flood;
pub mod grid;
pub mod info;
pub mod laws;
pub mod planet;
pub mod quanta;
pub mod seeds;
pub mod settle;
pub mod tables;
pub mod zone;

pub use grid::{adjacent_tile_id, adjacent_tile_ids, adjacent_tile_ids_no_orig};
