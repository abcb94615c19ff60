//! The per-character Unicode normalization facts of `unicode-normalization`,
//! written out as compact tables of base-64 digit records, and test cases of
//! what the crate makes of chosen strings, characters and pairs.

pub mod cases;
pub mod composition_source;
pub mod encoding;
pub mod fingerprint;
pub mod normalization;
pub mod official;
pub mod order;
pub mod records;
pub mod rng;
pub mod runs;
pub mod scalars;
pub mod tables;
