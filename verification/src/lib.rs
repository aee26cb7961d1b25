//! Reconciles diagnostic-code metadata (code, message, default severity) from
//! several upstream sources into one canonical registry, then merges that
//! registry into a line-oriented configuration file, keeping unrelated lines
//! and honoring severities the user had already set.

pub mod analyzer;
pub mod builder;
pub mod error_codes;
pub mod laws;
pub mod merge;
pub mod registry;
pub mod resx;
pub mod severity;
pub mod sorted_map;
pub mod text;
