//! A per-user file storage service: identities register and log in, then
//! upload, download and list files organized by hierarchical path-like names.
//!
//! The core is the staged file placement engine: an upload is created as a
//! record, staged to a temporary location, written, and only then committed
//! to its final name and path, so that a file is either fully visible at its
//! final name or not visible at all.

pub mod api;
pub mod auth;
pub mod config;
pub mod disk;
pub mod error;
pub mod files;
pub mod jwt;
pub mod path;
pub mod strutil;
pub mod users;

pub use error::Error;
