//! Partial extraction from ZIP archives by way of a persisted offset index.
//!
//! The crate builds a compact index of a ZIP archive's members (name, sizes,
//! and the absolute offset of each member's compressed payload), persists that
//! index as a binary blob, and later uses it to extract a single member from
//! only the bytes belonging to it, whether those bytes come from a local file
//! or from a remote object fetched by a byte-range request.

use vstd::prelude::*;

pub mod builder;
pub mod bytes;
pub mod entry;
pub mod extract;
pub mod inflate;
pub mod store;

verus! {

/// The error taxonomy shared by every operation of the crate.
#[derive(Clone, Copy, Debug, PartialEq, Eq, Structural)]
pub enum Error {
    /// The archive's directory structure could not be parsed.
    Parse,
    /// The requested entry (or a required file or object) is absent.
    NotFound,
    /// A filesystem operation failed.
    Io,
    /// A remote fetch failed.
    Network,
    /// A persisted index blob is malformed.
    Decode,
    /// A compressed payload is not a valid raw-deflate stream.
    Decompression,
}

} // verus!
