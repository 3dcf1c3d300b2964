//! A content-addressed store: files and directories are immutable resources
//! named by the SHA-256 digest of their canonical encoding.
//!
//! - `object`, `chunk`, `file`, `directory`, `resource`: the data model and
//!   the canonical encoding that objects are digests of.
//! - `cas`: the store interface, with typed fetches, exact ranged reads and
//!   path resolution built on its primitives.
//! - `store`: the in-memory store and file creation.
//! - `path`: slash paths rooted at a directory's hex object.
//! - `protocol`: peer messages, their framing, and what each end decides.
//! - `filesystem`: the local store as a cache in front of the peers.
//! - `laws`: properties that relate several of these operations.

pub mod bytes;
pub mod cas;
pub mod chunk;
pub mod directory;
pub mod error;
pub mod file;
pub mod filesystem;
pub mod laws;
pub mod object;
pub mod path;
pub mod protocol;
pub mod resource;
pub mod store;
