//! The asar archive format: header framing, the JSON directory tree, the
//! layout of packed file data, SHA256 block-integrity metadata and the
//! `.unpacked` sidecar selection.

pub mod archive;
pub mod archive_trip;
pub mod bytes;
pub mod header;
pub mod json;
pub mod pack;
pub mod progress;
pub mod roundtrip;
pub mod entries;
pub mod error;
pub mod glob;
pub mod hex;
pub mod integrity;
pub mod tree;

use vstd::prelude::*;

verus! {

/// Size of one integrity block: 4 MiB.
pub const BLOCK_SIZE: usize = 4194304;

} // verus!
