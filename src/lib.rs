//! Per-station minimum, midpoint and maximum of one-decimal readings held in a
//! `station;value` text source, computed over newline-aligned partitions.

pub mod record;
pub mod aggregate;
pub mod scan;
pub mod partition;
pub mod render;
pub mod pipeline;
pub mod laws;
