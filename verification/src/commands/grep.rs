//! `cch grep`: full-text search across transcripts.

pub mod matcher;
pub mod opts;
pub mod render;
pub mod scan;
pub mod snippet;
