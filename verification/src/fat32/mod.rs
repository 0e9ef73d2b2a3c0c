//! FAT32: boot sector, directory entries, the allocation table, and the
//! parser.

pub mod boot_sector;
pub mod dir_entry;
pub mod fat_table;
pub mod fat32_parser;
