//! A local, content-aware resource store: a hierarchical, tagged and
//! full-text-searchable index over binary blobs.

pub mod cache;
pub mod common;
pub mod config;
pub mod error;
pub mod fts;
pub mod index;
pub mod indexer;
pub mod listing;
pub mod manager;
pub mod naming;
pub mod paths;
pub mod ranking;
pub mod scorer;
pub mod strings;
pub mod transformers;
pub mod tree;
