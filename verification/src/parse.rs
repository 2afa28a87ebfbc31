//! The parsing pipeline: line scanning, header segmentation, field parsing.

pub mod header;
pub mod util;
