//! A block-chained filesystem core: on-disk geometry, occupancy bitmaps,
//! a write-back cache and byte files layered over chains of blocks.

pub mod bytes;
pub mod error;
pub mod filesystem;
pub mod filetypes;
pub mod math;
pub mod structs;
