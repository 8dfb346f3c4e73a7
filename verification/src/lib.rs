//! An in-memory registry of raw, un-decoded asset byte buffers addressed by
//! logical path. Producers insert `(path, bytes)` pairs; consumers look paths
//! up through a tolerant resolution rule (exact key first, then a normalized
//! substring scan) and hand the bytes to a format decoder chosen by file
//! extension through an open registration table.

use vstd::prelude::*;

pub mod dispatch;
pub mod paths;
pub mod store;

verus! {

/// The failures this crate reports.
#[derive(Debug, PartialEq, Eq)]
pub enum Error {
    /// No stored entry resolves the requested path; carries the path as queried.
    NotFound(Vec<u8>),
    /// The extension of the resolved path names a known format whose decoder is
    /// not enabled in this registry; carries the format name and the resolved path.
    FeatureMissing(Vec<u8>, Vec<u8>),
    /// The extension of the resolved path is not recognized by any registered
    /// format; carries the resolved path.
    UnsupportedFormat(Vec<u8>),
}

} // verus!
