//! Byte-buffer helpers for the host bridge: chunk concatenation and
//! zero-filled tile allocation. Buffers are returned by value and owned by
//! the caller; nothing keeps a hidden reference to them.

use vstd::prelude::*;
use vstd::slice::slice_to_vec;

verus! {

/// The number of bytes in one tile.
pub const TILE_SIZE: usize = 1024;

/// Concatenates two chunks into one caller-owned buffer.
pub fn merge_chunk_delta(a: &Vec<u8>, b: &Vec<u8>) -> (r: Vec<u8>)
    ensures
        r@ == a@ + b@,
{
    let mut out = slice_to_vec(a.as_slice());
    let mut tail = slice_to_vec(b.as_slice());
    out.append(&mut tail);
    out
}

/// A zero-filled, caller-owned buffer of `count` tiles.
pub fn alloc_smart_slice(count: usize) -> (r: Vec<u8>)
    requires
        count * TILE_SIZE <= usize::MAX as int,
    ensures
        r@.len() == count * TILE_SIZE,
        forall|i: int| 0 <= i < r@.len() ==> r@[i] == 0u8,
{
    let size = count * TILE_SIZE;
    let mut v: Vec<u8> = Vec::new();
    while v.len() < size
        invariant
            v@.len() <= size,
            forall|i: int| 0 <= i < v@.len() ==> v@[i] == 0u8,
        decreases size - v@.len(),
    {
        v.push(0);
    }
    v
}

} // verus!
