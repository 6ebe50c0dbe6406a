//! A verified terrain pipeline: a coherent-noise heightmap is turned into a
//! triangulated surface mesh and into an 8-bit grayscale preview raster.
//!
//! Heights travel through the library as fixed-point integers (`HEIGHT_ONE`
//! ticks stand for a raw height of one). The noise source itself works in
//! floating point, which the verified fragment does not hold, so the host
//! samples the noise field over the grid that [`heightmap::sample_grid`]
//! lays out and hands the fixed-point values back in the same order.

use vstd::prelude::*;

pub mod heightmap;
pub mod mesh;
pub mod raster;

verus! {

/// Number of fixed-point ticks in one height unit: a raw noise value of 1.0
/// is stored as `HEIGHT_ONE` ticks.
pub const HEIGHT_ONE: i64 = 65536;

} // verus!

