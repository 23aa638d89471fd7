//! The page-table engine: four levels of 512-entry tables over a 4 KiB
//! granule, held in an arena of table frames, and the operation that maps a
//! region into them with the largest blocks that fit.

pub mod arena;
pub mod frames;
pub mod fresh;
pub mod map;
pub mod plan;
pub mod steps;
pub mod words;
