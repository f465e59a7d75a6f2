//! A verified core for a personal secret-retrieval client that talks to a
//! hierarchical, path-addressed secret store.
//!
//! This library holds the logic that matters: the path model, the session
//! (token) lifecycle state machine, the breadth-first tree traversal behind
//! search and export, and the parsing of the store's response shapes. The
//! surrounding process (HTTP transport, interactive prompts, the on-disk
//! token cache, XML export plumbing) lives outside the library and talks to
//! it through plain values.

pub mod cache;
pub mod config;
pub mod error;
pub mod export;
pub mod health;
pub mod json;
pub mod listing;
pub mod path;
pub mod response;
pub mod session;
pub mod text;
pub mod traverse;
pub mod tree;
pub mod urls;

pub use error::Error;
