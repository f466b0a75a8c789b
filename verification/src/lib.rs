//! A verified post-processing pipeline for blockchain call traces: trace
//! trees are flattened, filtered against a watchlist of contract addresses,
//! enriched with cached selector-signature and contract-name resolutions,
//! and assembled into per-target report sheets.
pub mod cache;
pub mod enrich;
pub mod report;
pub mod resolve;
pub mod text;
pub mod trace;
