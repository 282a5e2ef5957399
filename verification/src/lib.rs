//! Incremental indexing core for a code-search system.
//!
//! The crate keeps a full-text index and a vector store coherent with the
//! files of a repository across repeated indexing passes, re-processing only
//! what actually changed.  Two content-addressed caches drive that behaviour:
//! a file cache at whole-file granularity and a chunk cache at
//! embedding-chunk granularity.  The relational store and the write traffic
//! to the external stores are modelled as plain data, so the whole
//! cache-coherence protocol is verified; callers perform the actual I/O and
//! hand the outcomes back.

pub mod fresh;
pub mod keys;
pub mod db;
pub mod seq_facts;
pub mod chunk;
pub mod fcache;
pub mod symbols;
pub mod pipeline;
