//! NTFS: boot sector, fixups, data runs, MFT records, and the parser.

pub mod boot_sector;
pub mod data_runs;
pub mod fixup;
pub mod mft_record;
pub mod run_list_file;
pub mod ntfs_parser;
