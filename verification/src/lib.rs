//! Escape-time fractal engine: a verified core for mapping pixels onto the
//! complex plane, iterating an escape recurrence, and scheduling the image
//! as disjoint row bands.
//!
//! The numeric recurrences themselves run on values supplied by the caller
//! through closures; this crate verifies the iteration skeleton, the escape
//! encoding, the band partition and the parsing of the textual inputs.

pub mod coloring;
pub mod fractal;
pub mod parse;
pub mod render;

pub use crate::coloring::StandardColors;
pub use crate::fractal::Fractal;
pub use crate::parse::parse_pair;
