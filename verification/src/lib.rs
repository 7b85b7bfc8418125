//! Scans a directory tree for its largest files and for groups of
//! byte-identical files, while tracking traversal statistics.
//!
//! The filesystem walk itself is I/O and lives outside this crate; the crate
//! holds the verified engine: the per-entry classification and filtering
//! rules, the statistics aggregation, the content fingerprinting, the top-N
//! selection and the duplicate grouping.

pub mod cli;
pub mod file_sizes;
pub mod file_utils;
pub mod sorting;
pub mod text;
pub mod traversal;
