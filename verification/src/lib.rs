//! A persistent, concurrent key-value store layered over a single append-only
//! log file.
//!
//! Several named collections — associative maps and membership sets — share
//! one log. Every mutation appends one tagged record carrying the owning
//! collection's identifier, so a collection's in-memory state is always the
//! fold of its own records in log order. This crate holds the verified core:
//! the record wire format, the replay fold, the sharded in-memory index, the
//! write pipeline's record construction, and the selective clear / compaction
//! rewrites. File handling and the asynchronous durability shell sit outside
//! the core and exchange plain byte vectors with it.

pub mod config;
pub mod db;
pub mod hasher;
pub mod index;
pub mod log;
pub mod record;
pub mod store;
pub mod wire;
