//! Verified core of a Monte Carlo ray tracer: raster layout, hit-parameter
//! ordinals and intervals, nearest-hit reduction and depth-bounded path
//! tracing.

pub mod bitmap;
pub mod error;
pub mod hittable;
pub mod hittable_list;
pub mod interval;
pub mod material;
pub mod ordinal;
pub mod path;
pub mod raster;
pub mod sphere;
