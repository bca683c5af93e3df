//! Storage backends beside the one in memory.

pub mod reads;
pub mod rocks;
