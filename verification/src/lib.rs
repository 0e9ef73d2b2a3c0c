//! Restora: deleted-file recovery and free-space erasure over raw disk
//! images. FAT32 and NTFS metadata parsing, signature carving, and
//! pattern-based wiping, all reading through the `ByteSource` trait.

pub mod source;
pub mod bytes;
pub mod error;
pub mod text;
pub mod clock;
pub mod fat32;
pub mod ntfs;
pub mod carving;
pub mod secure_delete;
pub mod recoverable;
pub mod application;
pub mod parser;
pub mod detect;
pub mod privilege;
pub mod api;


