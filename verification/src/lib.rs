//! Linux user-namespace id mapping: the extent tables that the kernel
//! exposes per process under `uid_map` / `gid_map`, and the bidirectional
//! translation of a single id across the namespace boundary.
//!
//! The library is pure: it parses the textual table format from bytes and
//! translates ids over the resulting table.  Opening and reading the
//! per-process resources is left to the caller.

pub mod idmap;
pub mod laws;
pub mod parse;

pub use idmap::Extent;
pub use idmap::IdMap;
pub use idmap::Kind;
