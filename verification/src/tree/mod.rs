//! Spatial tree families.

pub mod mbr;
