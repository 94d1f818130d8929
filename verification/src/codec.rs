//! The patch codec: one patch record (offset, old bytes, new bytes) is laid
//! out as three 8-byte little-endian integers followed by the two payloads,
//! and that raw buffer travels through a lossless compressor.

use crate::CodecError;
use std::io::Read;
use std::io::Write;
use vstd::bytes::*;
use vstd::prelude::*;
use vstd::slice::*;

verus! {

/// The mathematical content of one patch: an equal-length byte-range
/// substitution at a fixed offset.
#[verifier::ext_equal]
pub ghost struct PatchModel {
    pub off: int,
    pub old_bytes: Seq<u8>,
    pub new_bytes: Seq<u8>,
}

/// A recorded byte-range substitution. The old and the new payload always
/// have the same length: patches never resize the region.
pub struct Patch {
    pub offset: usize,
    pub old_bytes: Vec<u8>,
    pub new_bytes: Vec<u8>,
}

impl View for Patch {
    type V = PatchModel;

    open spec fn view(&self) -> PatchModel {
        PatchModel {
            off: self.offset as int,
            old_bytes: self.old_bytes@,
            new_bytes: self.new_bytes@,
        }
    }
}

/// A patch that a `Patch` value can actually hold: the offset fits a machine
/// word, both payloads have the same length, and the raw buffer that encodes
/// them fits a machine word as well.
pub open spec fn patch_wf(p: PatchModel) -> bool {
    &&& 0 <= p.off <= usize::MAX as int
    &&& p.old_bytes.len() == p.new_bytes.len()
    &&& 24 + p.old_bytes.len() + p.new_bytes.len() <= usize::MAX as int
}

/// The self-describing raw buffer of a patch, before compression: offset,
/// old length and new length as 8-byte little-endian integers, then the old
/// bytes, then the new bytes.
pub open spec fn raw_of(p: PatchModel) -> Seq<u8> {
    spec_u64_to_le_bytes(p.off as u64) + spec_u64_to_le_bytes(p.old_bytes.len() as u64)
        + spec_u64_to_le_bytes(p.new_bytes.len() as u64) + p.old_bytes + p.new_bytes
}

/// What parsing a raw (decompressed) buffer yields: the patch it describes,
/// or nothing when the header is short, the lengths disagree with each other
/// or with the payload, or the offset cannot fit a machine word.
pub open spec fn parse_raw(d: Seq<u8>) -> Option<PatchModel> {
    if d.len() < 24 {
        None
    } else {
        let off = spec_u64_from_le_bytes(d.subrange(0, 8));
        let ol = spec_u64_from_le_bytes(d.subrange(8, 16));
        let nl = spec_u64_from_le_bytes(d.subrange(16, 24));
        if ol == nl && off as int <= usize::MAX as int && 24 + ol as int + nl as int
            == d.len() as int {
            Some(
                PatchModel {
                    off: off as int,
                    old_bytes: d.subrange(24, 24 + ol as int),
                    new_bytes: d.subrange(24 + ol as int, 24 + ol as int + nl as int),
                },
            )
        } else {
            None
        }
    }
}

/// Law: the codec is reversible. Parsing the raw buffer of any well-formed
/// patch gives back exactly that patch, so a journal blob built by
/// `encode_patch` decodes, through `decode_patch`, to the patch it came from.
pub proof fn lemma_codec_round_trip(p: PatchModel)
    requires
        patch_wf(p),
    ensures
        parse_raw(raw_of(p)) == Some(p),
{
    lemma_auto_spec_u64_to_from_le_bytes();
    let d = raw_of(p);
    let ob = spec_u64_to_le_bytes(p.off as u64);
    let lb = spec_u64_to_le_bytes(p.old_bytes.len() as u64);
    let nb = spec_u64_to_le_bytes(p.new_bytes.len() as u64);
    let ol = p.old_bytes.len() as int;
    let nl = p.new_bytes.len() as int;
    assert(d.len() == 24 + ol + nl);
    assert(d.subrange(0, 8) =~= ob);
    assert(d.subrange(8, 16) =~= lb);
    assert(d.subrange(16, 24) =~= nb);
    assert(d.subrange(24, 24 + ol) =~= p.old_bytes);
    assert(d.subrange(24 + ol, 24 + ol + nl) =~= p.new_bytes);
    assert(parse_raw(d) == Some(p));
}

/// The compressed stream that the xz encoder, at this library's fixed
/// compression level, emits for a given input.
pub uninterp spec fn xz_of(data: Seq<u8>) -> Seq<u8>;

/// Relies on xz2's `XzEncoder` writing into an in-memory buffer: at a fixed
/// preset the emitted stream is a function of the input bytes alone, and
/// writing to a `Vec` sink cannot fail.
#[verifier::external_body]
fn xz_compress(data: &Vec<u8>) -> (r: Vec<u8>)
    ensures
        r@ == xz_of(data@),
{
    let mut enc = xz2::write::XzEncoder::new(Vec::new(), 6);
    enc.write_all(data.as_slice()).unwrap();
    enc.finish().unwrap()
}

/// Relies on xz2's `XzDecoder`: compression is lossless, so a stream the
/// encoder emitted for some input decompresses back to exactly that input.
/// On a malformed stream the decoder reports an error instead.
#[verifier::external_body]
fn xz_decompress(blob: &Vec<u8>) -> (r: Option<Vec<u8>>)
    ensures
        forall|d: Seq<u8>| blob@ == #[trigger] xz_of(d) ==> r is Some && r->0@ == d,
{
    let mut dec = xz2::read::XzDecoder::new(blob.as_slice());
    let mut out = Vec::new();
    match dec.read_to_end(&mut out) {
        Ok(_) => Some(out),
        Err(_) => None,
    }
}

/// Serializes a patch into a self-describing compressed blob.
pub fn encode_patch(p: &Patch) -> (r: Vec<u8>)
    requires
        patch_wf(p@),
    ensures
        r@ == xz_of(raw_of(p@)),
{
    let mut raw = u64_to_le_bytes(p.offset as u64);
    let mut lb = u64_to_le_bytes(p.old_bytes.len() as u64);
    let mut nb = u64_to_le_bytes(p.new_bytes.len() as u64);
    raw.append(&mut lb);
    raw.append(&mut nb);
    let mut oldc = slice_to_vec(p.old_bytes.as_slice());
    let mut newc = slice_to_vec(p.new_bytes.as_slice());
    raw.append(&mut oldc);
    raw.append(&mut newc);
    proof {
        assert(raw@ =~= raw_of(p@));
    }
    xz_compress(&raw)
}

/// Parses an already-decompressed raw buffer into a patch, rejecting a short
/// header and any length or offset inconsistency.
pub fn parse_patch(buf: &Vec<u8>) -> (r: Result<Patch, CodecError>)
    ensures
        match r {
            Ok(p) => parse_raw(buf@) == Some(p@),
            Err(e) => parse_raw(buf@) is None && e != CodecError::Corrupted,
        },
{
    let n = buf.len();
    if n < 24 {
        return Err(CodecError::TooShort);
    }
    let off_u = u64_from_le_bytes(slice_subrange(buf.as_slice(), 0, 8));
    let ol = u64_from_le_bytes(slice_subrange(buf.as_slice(), 8, 16));
    let nl = u64_from_le_bytes(slice_subrange(buf.as_slice(), 16, 24));
    if ol != nl {
        return Err(CodecError::LengthMismatch);
    }
    let rest = (n - 24) as u64;
    if ol > rest || nl != rest - ol {
        return Err(CodecError::LengthMismatch);
    }
    if off_u > usize::MAX as u64 {
        return Err(CodecError::LengthMismatch);
    }
    let ol_us = ol as usize;
    let old_v = slice_to_vec(slice_subrange(buf.as_slice(), 24, 24 + ol_us));
    let new_v = slice_to_vec(slice_subrange(buf.as_slice(), 24 + ol_us, n));
    Ok(Patch { offset: off_u as usize, old_bytes: old_v, new_bytes: new_v })
}

/// Decodes a compressed journal blob back into the patch it describes. A
/// blob that is not a valid compressed stream, or whose payload does not
/// match its header, yields a recoverable error, never a crash.
pub fn decode_patch(blob: &Vec<u8>) -> (r: Result<Patch, CodecError>)
    ensures
        forall|d: Seq<u8>|
            blob@ == #[trigger] xz_of(d) ==> match r {
                Ok(p) => parse_raw(d) == Some(p@),
                Err(e) => parse_raw(d) is None && e != CodecError::Corrupted,
            },
{
    match xz_decompress(blob) {
        Some(buf) => parse_patch(&buf),
        None => Err(CodecError::Corrupted),
    }
}

} // verus!
