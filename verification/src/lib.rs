//! A verified core for a parallel escape-time fractal renderer, together
//! with the small numeric helpers that accompany it: a greatest-common-divisor
//! routine, textual pair parsing, band partitioning of a raster, and shading
//! loops that fill a raster through a caller-supplied pixel function.

pub mod gcd;
pub mod parse;
pub mod png;
pub mod render;
