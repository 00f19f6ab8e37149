//! Value types for graphics math.

pub mod color;
