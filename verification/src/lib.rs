//! Extraction of the diagnostic core of noisy continuous-integration build
//! logs.
//!
//! The crate has three cooperating parts: a sanitizer that strips
//! run-to-run noise from raw log lines so that equivalent lines compare
//! equal, an index that records which sanitized lines are ordinary, and an
//! extractor that groups the lines the index does not recognize into
//! ordered error blocks.

pub mod acquire;
pub mod extract;
pub mod index;
pub mod sanitize;

pub use crate::index::Index;
