//! Core of an embeddable HTTP server: request parsing and a three-tier router.

pub mod common;
pub mod connection;
pub mod laws;
pub mod pattern;
pub mod request;
pub mod route_path;
pub mod router;
pub mod server;
pub mod text;
pub mod trie;
