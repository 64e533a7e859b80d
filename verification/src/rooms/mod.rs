//! Room and doorway analysis of a level, on an occupancy grid.

pub mod grid;
pub mod flood;
pub mod scan;
pub mod components;
pub mod doors;
pub mod seal;
pub mod regions;
pub mod gaps;
pub mod analysis;
