//! A grid puzzle core: a player pushes chains of boxes across an integer
//! grid, walls block them, and the level is complete once every goal cell
//! holds a box.

pub mod entity;
pub mod error;
pub mod goal;
pub mod grid;
pub mod level;
pub mod occupancy;
pub mod push;
pub mod rules;
pub mod theorems;
