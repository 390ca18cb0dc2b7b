//! Per-layer toolpath planner for a fused-deposition slicer.
//!
//! Coordinates are fixed-point integers (millionths of a millimetre), so the
//! whole planning pipeline -- ring nesting, shell perimeters, scanline fill
//! and travel-minimised chain ordering -- is exact and verified. Polygon
//! offsetting and curve simplification are geometric services the caller
//! performs between passes and hands back in as plain polygons.

pub mod geom;
pub mod laws;
pub mod moves;
pub mod perimeter;
pub mod scanfill;
pub mod settings;
pub mod slice;
