//! A minimal content-addressable object store with a binary staging index.
//!
//! The crate has two subsystems: the object store (content hashing, type-tagged
//! framing, stream compression, two-level directory addressing) and the index
//! (a packed binary record format with per-entry metadata and a trailing
//! whole-file checksum, plus add/remove semantics over an ordered entry
//! collection).  All byte-level formats are specified and verified here; the
//! surrounding program does the file reads and writes.

pub mod bytes;
pub mod digest;
pub mod error;
pub mod index;
pub mod object;
pub mod utils;
pub mod zlib;
