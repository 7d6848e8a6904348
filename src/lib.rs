//! Catalog of drum transcriptions built from a creator's post feed: heading
//! parsing, artist corrections, difficulty classification, an incremental
//! index keyed by release sequence numbers, and per-artist grouping.

pub mod text;
pub mod api;
pub mod models;
pub mod corrections;
pub mod conversions;
pub mod index_cache;
pub mod grouping;
pub mod output;
