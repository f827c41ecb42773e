//! A persistent, deduplicating DNS query cache with a pluggable resolver
//! backend.
//!
//! The cache memoizes every outcome of a DNS probe, keyed by
//! `(Question, server)`, keeps structured retry history, and round-trips
//! through a self-describing binary format.

pub mod cache;
pub mod codec;
pub mod envelope;
pub mod error;
pub mod ip;
pub mod name;
pub mod net;
pub mod question;
pub mod render;
