//! Numeric and image-output foundation of a software renderer: an RGB color
//! model, a raster canvas with bounds-checked writes, a serializer to the
//! plain-text PPM image format, and the plotting half of a projectile demo.
//!
//! Color channels and spatial coordinates are IEEE-754 binary64 values.  The
//! verified core never computes with them directly: it carries each channel as
//! its raw 64-bit pattern and reads the pattern only where the output format
//! demands it (quantizing a channel to a decimal in 0..=255), which is exact
//! integer arithmetic.  The floating-point algebra itself (tuple and color
//! arithmetic, the physics tick) lives with the unverified caller, which hands
//! this crate bit patterns and rounded pixel coordinates.

pub mod canvas;
pub mod colors;
pub mod projectile;
pub mod tuples;
