//! The pieces that the tables are probed with: control bytes, groups of them and bit masks.

pub mod bitmask;
pub mod group;
pub mod probe;
pub mod race;
pub mod ctrl;
pub mod table;
