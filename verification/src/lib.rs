//! The analysis core of a disk-usage viewer for NTFS volumes.
pub mod bytes;
pub mod text;
pub mod mft_parse;
pub mod model;
pub mod order;
pub mod worklist;
pub mod edit;
pub mod mft_scan;
pub mod mft_record;
pub mod mft_tree;
pub mod palette;
pub mod seen;
pub mod scan;
pub mod calendar;
pub mod decimals;
pub mod format;
pub mod dir_enum;
pub mod disk_info;
pub mod walk;
pub mod export;
pub mod owners;
pub mod scan_start;
pub mod tables;
pub mod digest;
pub mod dedup;
pub mod categorize;
pub mod duplicates;
pub mod wide;
pub mod file_ops;
pub mod mft_verify;
pub mod ui;
pub mod tabs;
pub mod session;
pub mod messages;
pub mod applog;
pub mod fonts;
pub mod treemap;
