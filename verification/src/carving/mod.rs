//! Signature carving: finding files by their header and footer bytes,
//! independent of any filesystem metadata.

pub mod carver;
pub mod signatures;
