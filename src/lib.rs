//! A versioned file store layered on a remote canonical history, with the
//! small grammar toolkit its tooling shares.

pub mod cache;
pub mod grammar;
pub mod keyspace;
pub mod laws;
pub mod memstore;
pub mod names;
pub mod patch;
pub mod peer;
pub mod records;
pub mod repo;
pub mod store;
pub mod text;
