//! Core of a load-generation and latency-measurement harness for a remote
//! key-value cache service: the fixed-width trace record codec, the
//! per-worker statistics collector with merge / quantile / bandwidth /
//! moving-average computations, the worker decision logic for the
//! lookaside and read-through caching strategies, and the dispatcher's
//! pacing and aggregation rules.

pub mod access;
pub mod client;
pub mod dispatch;
pub mod stats;
