//! A versioned, byte-addressable storage region with in-process undo/redo
//! history over reversible byte-range edits.
//!
//! The core is the patch tree: a fixed-size mapped byte region, a compressed
//! patch journal, and cursor-based undo/redo logic. Around it stand a
//! topological task scheduler and a few independent integer math utilities.

use vstd::prelude::*;

pub mod buffers;
pub mod codec;
pub mod culling;
pub mod pixel;
pub mod sched;
pub mod store;
pub mod tree;

verus! {

/// An opaque engine-core handle for hosts that drive the library through a
/// plain function-call boundary.
pub struct FeatherCore {
    marker: u8,
}

impl FeatherCore {
    /// A fresh core handle.
    pub fn new() -> (r: FeatherCore) {
        FeatherCore { marker: 0 }
    }
}

/// Why opening or mapping a backing region failed.
#[derive(Clone, Copy, Debug, PartialEq, Eq, Structural)]
pub enum StoreError {
    /// A region of zero bytes cannot be mapped.
    InvalidSize,
    /// The operating system refused to create the mapping.
    MapFailed,
}

/// Why a journal blob could not be decoded back into a patch.
#[derive(Clone, Copy, Debug, PartialEq, Eq, Structural)]
pub enum CodecError {
    /// The blob is not a valid compressed stream.
    Corrupted,
    /// The decompressed payload is shorter than its fixed header.
    TooShort,
    /// The header's lengths disagree with the payload or with each other.
    LengthMismatch,
}

} // verus!
