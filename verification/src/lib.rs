//! Aggregate storage usage grouped by file content type.
//!
//! The crate keeps a running tally of bytes per content-type label
//! ([`aggregate::Aggregate`]), folds a stream of directory-scan events into
//! that tally while tolerating per-entry failures ([`scan`]), and renders the
//! finished tally as a sorted, percentage-annotated table ([`report`]).
//! Walking a real directory tree and classifying files are left to the
//! caller, who feeds the outcome of each visited entry in as a
//! [`scan::EntryEvent`].

pub mod aggregate;
pub mod numfmt;
pub mod report;
pub mod scan;
