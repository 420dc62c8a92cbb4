//! Sorts loose top-level files of a directory into subdirectories named
//! after each file's extension: `report.csv` is routed to `_csv/report.csv`.
//!
//! The library is the planning pipeline: split a directory listing into
//! files and subdirectories, classify each file path under a normalized
//! extension key, then compute which key directories must be created and
//! the old-path to new-path mapping for every file. All of it is pure
//! computation over paths; reading the directory and applying the plan on
//! the filesystem is the caller's part.

pub mod args;
pub mod ext;
pub mod laws;
pub mod plan;
pub mod scan;
pub mod strutil;
