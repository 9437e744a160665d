//! A 2D rigid-body physics core for a ball-drop ("Plinko") board.
//!
//! The crate provides a uniform spatial-partitioning grid, a line-rasterization
//! walk that registers static segments into the grid, and impulse-based
//! collision response between circular bodies and line segments.  All world
//! coordinates are fixed-point integers: a world unit (one pixel) is `SCALE`
//! ticks, so the arithmetic is exact and every operation is verified.

pub mod num;
pub mod library;
pub mod items;
pub mod grid;

use vstd::prelude::*;

verus! {

/// Fixed-point scale: one world unit (pixel) is this many ticks.
pub const SCALE: i64 = 1024;

/// Largest magnitude of a stored coordinate or velocity component, in ticks
/// (`2^30 - 1`); coordinate updates saturate here.
pub const COORD_LIMIT: i64 = 0x3fff_ffff;

/// Largest ball radius or wall width, in world units (`2^20`).
pub const SIZE_LIMIT: i64 = 0x10_0000;

} // verus!
