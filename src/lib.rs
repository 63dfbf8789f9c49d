//! A small full-text index: per-document term statistics, a corpus-wide
//! document-frequency table, and TF-IDF ranking over them.
//!
//! The library keeps every count exact. A score is a sum of
//! `tf * log10(idf)` terms, where each `tf` and each `idf` argument is handed
//! out as an exact [`stats::Ratio`]; the caller evaluates the logarithm and
//! orders the documents with [`rank::rank_order`].

pub mod table;
pub mod stats;
pub mod memory;
pub mod rank;
pub mod persisted;
