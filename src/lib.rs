//! Duplicate-file detection: content digests, the file inventory, and
//! grouping of files that share size and digest.

pub mod audit;
pub mod choice;
pub mod cleanup;
pub mod digest;
pub mod entry;
pub mod laws;
pub mod paths;
pub mod remote;
pub mod report;
pub mod resolve;
pub mod scan;
pub mod stats;
