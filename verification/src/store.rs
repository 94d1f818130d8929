//! The backing store: a fixed-size memory-mapped byte region with raw
//! offset-addressable reads and writes. Out-of-bounds accesses are refused
//! by a deliberate, lenient boundary policy: they leave the region untouched
//! and report failure instead of crashing.

use crate::StoreError;
use vstd::prelude::*;

verus! {

#[verifier::external_type_specification]
#[verifier::external_body]
pub struct ExMmapMut(memmap2::MmapMut);

/// The bytes that a mapped region holds.
pub uninterp spec fn region_bytes(m: memmap2::MmapMut) -> Seq<u8>;

/// `s` with the `v.len()` bytes starting at `off` replaced by `v`; every
/// other byte keeps its value.
pub open spec fn splice(s: Seq<u8>, off: int, v: Seq<u8>) -> Seq<u8>
    recommends
        0 <= off,
        off + v.len() <= s.len(),
{
    s.subrange(0, off) + v + s.subrange(off + v.len() as int, s.len() as int)
}

/// A splice within bounds keeps the region's length.
pub proof fn lemma_splice_len(s: Seq<u8>, off: int, v: Seq<u8>)
    requires
        0 <= off,
        off + v.len() <= s.len(),
    ensures
        splice(s, off, v).len() == s.len(),
        splice(s, off, v).subrange(off, off + v.len() as int) == v,
{
    assert(splice(s, off, v).subrange(off, off + v.len() as int) =~= v);
}

/// A splice leaves every byte outside the replaced range unchanged.
pub proof fn lemma_splice_frame(s: Seq<u8>, off: int, v: Seq<u8>, i: int)
    requires
        0 <= off,
        off + v.len() <= s.len(),
        0 <= i < s.len(),
        !(off <= i < off + v.len()),
    ensures
        splice(s, off, v)[i] == s[i],
{
}

/// Splicing the same range twice keeps only the second payload.
pub proof fn lemma_splice_splice(s: Seq<u8>, off: int, a: Seq<u8>, b: Seq<u8>)
    requires
        0 <= off,
        off + a.len() <= s.len(),
        a.len() == b.len(),
    ensures
        splice(splice(s, off, a), off, b) == splice(s, off, b),
{
    assert(splice(splice(s, off, a), off, b) =~= splice(s, off, b));
}

/// Splicing a range with the bytes it already holds changes nothing.
pub proof fn lemma_splice_self(s: Seq<u8>, off: int, n: int)
    requires
        0 <= off,
        0 <= n,
        off + n <= s.len(),
    ensures
        splice(s, off, s.subrange(off, off + n)) == s,
{
    assert(splice(s, off, s.subrange(off, off + n)) =~= s);
}

/// Relies on `MmapMut::map_anon`: a fresh anonymous mapping of exactly
/// `size` bytes; such memory comes back from the operating system
/// zero-filled, as mmap(2) documents for anonymous mappings.
#[verifier::external_body]
fn map_anon_region(size: usize) -> (r: Option<memmap2::MmapMut>)
    ensures
        r is Some ==> region_bytes(r->0).len() == size,
        r is Some ==> forall|i: int| 0 <= i < size ==> region_bytes(r->0)[i] == 0u8,
{
    memmap2::MmapMut::map_anon(size).ok()
}

/// Relies on `MmapMut`'s slice view (`Deref`): its length is the mapped size.
#[verifier::external_body]
fn region_len(m: &memmap2::MmapMut) -> (r: usize)
    ensures
        r == region_bytes(*m).len(),
{
    m.len()
}

/// Relies on `MmapMut`'s slice view (`Deref`): copies the requested range
/// out of the mapping.
#[verifier::external_body]
fn region_read(m: &memmap2::MmapMut, offset: usize, len: usize) -> (r: Vec<u8>)
    requires
        offset + len <= region_bytes(*m).len(),
    ensures
        r@ == region_bytes(*m).subrange(offset as int, offset as int + len as int),
{
    m[offset..offset + len].to_vec()
}

/// Relies on `MmapMut`'s mutable slice view (`DerefMut`): overwrites the
/// range starting at `offset` with `data` and touches no other byte.
#[verifier::external_body]
fn region_write(m: &mut memmap2::MmapMut, offset: usize, data: &Vec<u8>)
    requires
        offset + data@.len() <= region_bytes(*old(m)).len(),
    ensures
        region_bytes(*final (m)) == splice(region_bytes(*old(m)), offset as int, data@),
{
    m[offset..offset + data.len()].copy_from_slice(data.as_slice());
}

/// Relies on `MmapMut::flush`: blocks until outstanding modifications of a
/// file-backed mapping are durably stored, and reports failure otherwise.
#[verifier::external_body]
fn region_flush(m: &memmap2::MmapMut) -> (r: bool) {
    m.flush().is_ok()
}

/// A fixed-size memory-mapped byte region. Its length is set once at
/// creation; every access stays within bounds or is refused.
pub struct Store {
    map: memmap2::MmapMut,
}

impl View for Store {
    type V = Seq<u8>;

    closed spec fn view(&self) -> Seq<u8> {
        region_bytes(self.map)
    }
}

impl Store {
    /// Maps a fresh zero-filled anonymous region of exactly `size` bytes.
    /// A zero size is refused; an operating-system failure is reported.
    pub fn create(size: usize) -> (r: Result<Store, StoreError>)
        ensures
            size == 0 <==> r == Err::<Store, StoreError>(StoreError::InvalidSize),
            r is Ok ==> r->Ok_0@.len() == size,
            r is Ok ==> forall|i: int| 0 <= i < size ==> r->Ok_0@[i] == 0u8,
    {
        if size == 0 {
            return Err(StoreError::InvalidSize);
        }
        match map_anon_region(size) {
            Some(m) => Ok(Store { map: m }),
            None => Err(StoreError::MapFailed),
        }
    }

    /// Wraps a mapping the host already created, typically over a file that
    /// was opened and sized by the caller.
    pub fn from_map(map: memmap2::MmapMut) -> (r: Store)
        ensures
            r@ == region_bytes(map),
    {
        Store { map }
    }

    /// The fixed byte length of the region.
    pub fn size(&self) -> (r: usize)
        ensures
            r == self@.len(),
    {
        region_len(&self.map)
    }

    /// Returns a copy of the requested range, or nothing when the range
    /// reaches past the end of the region.
    pub fn read(&self, offset: usize, len: usize) -> (r: Option<Vec<u8>>)
        ensures
            r is Some <==> offset + len <= self@.len(),
            r is Some ==> r->0@ == self@.subrange(offset as int, offset as int + len as int),
    {
        let n = region_len(&self.map);
        match offset.checked_add(len) {
            Some(end) => {
                if end <= n {
                    Some(region_read(&self.map, offset, len))
                } else {
                    None
                }
            },
            None => None,
        }
    }

    /// Copies `data` into the region at `offset`. A range that reaches past
    /// the end of the region leaves it untouched and reports failure.
    pub fn write_range(&mut self, offset: usize, data: &Vec<u8>) -> (ok: bool)
        ensures
            ok <==> offset + data@.len() <= old(self)@.len(),
            ok ==> final (self)@ == splice(old(self)@, offset as int, data@),
            !ok ==> final (self)@ == old(self)@,
            final (self)@.len() == old(self)@.len(),
    {
        let n = region_len(&self.map);
        match offset.checked_add(data.len()) {
            Some(end) => {
                if end <= n {
                    region_write(&mut self.map, offset, data);
                    proof {
                        lemma_splice_len(old(self)@, offset as int, data@);
                    }
                    true
                } else {
                    false
                }
            },
            None => false,
        }
    }

    /// Flushes the region to its backing file, the library's durability
    /// barrier: callers that need on-disk durability invoke it explicitly
    /// or through `ChronoPatchTree::close`.
    pub fn sync(&self) -> (r: bool) {
        region_flush(&self.map)
    }
}

} // verus!
