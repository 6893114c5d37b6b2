//! A verified catalog engine for user-authored, templated shell commands:
//! parsing and serializing workflow documents, checksum-based
//! reconciliation of a persistent store, exact-then-fuzzy search policy,
//! and argument resolution with command rendering.

pub mod codec;
pub mod command;
pub mod config;
pub mod error;
pub mod file_ext;
pub mod files;
pub mod fuzzy;
pub mod hasher;
pub mod reconcile;
pub mod render;
pub mod resolver;
pub mod roundtrip;
pub mod search;
pub mod store;
pub mod text;
pub mod workflow;
