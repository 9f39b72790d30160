//! Fetch-then-aggregate task runner: decides whether a cached CSV must be
//! downloaded, counts the bytes of a chunked download, and computes a grouped
//! row count over one categorical CSV column, sorted by category.

pub mod config;
pub mod fetch;
pub mod runner;
pub mod aggregate;
