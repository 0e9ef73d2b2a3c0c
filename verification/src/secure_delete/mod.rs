//! Free-space erasure: the patterns a wipe writes.

pub mod wipe_pattern;
