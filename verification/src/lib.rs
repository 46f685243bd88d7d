//! Read-only engine for a compressed, indexed dictionary container.
//!
//! The container holds a textual header, an index of compressed key blocks,
//! an index of compressed record blocks, and the blocks themselves.  The
//! library parses the header and both indices, validates checksums before
//! trusting any block, and resolves a keyword to its stored content under a
//! mode-parameterized collation, following alias (link) entries up to a
//! fixed hop bound.

pub mod bytes;
pub mod checksum;
pub mod block;
pub mod collate;
pub mod dict;
pub mod entries;
pub mod error;
pub mod header;
pub mod index;
