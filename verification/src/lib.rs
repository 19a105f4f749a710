//! Aggregation pipeline for tab-separated n-gram frequency records.
//!
//! The library ingests the decoded text of corpus files, merges consecutive
//! same-token lines into per-token totals, strips trailing part-of-speech
//! suffixes, deduplicates across files by summing counts per normalized
//! token, sorts the result by descending occurrence count, and encodes the
//! canonical table to a compact binary snapshot.

pub mod record;
pub mod model;
pub mod parse;
pub mod extract;
pub mod dedup;
pub mod codec;
pub mod pipeline;
