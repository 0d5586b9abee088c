//! Genomic regions written as `<path>:<start>-<stop>`: parsing, chromosome
//! prefix normalisation, interval arithmetic and the canonical text form.

pub mod digits;
pub mod grammar;
pub mod region;

pub use region::{Region, RegionError};
