//! Compression of what is sent and stored.

use std::io::Read;

use vstd::prelude::*;
use vstd::slice::slice_to_vec;

verus! {

#[verifier::external_type_specification]
#[verifier::external_body]
pub struct ExIoError(std::io::Error);

/// What `zstd::encode_all` makes of some bytes at a level.
pub uninterp spec fn zstd_frame(data: Seq<u8>, level: i32) -> Seq<u8>;

/// What `zstd::decode_all` makes of some bytes, where it succeeds.
pub uninterp spec fn zstd_content(data: Seq<u8>) -> Seq<u8>;

/// What a `ruzstd::decoding::StreamingDecoder` reads to the end out of some
/// bytes; nothing, if it meets an error.
pub uninterp spec fn ruzstd_content(data: Seq<u8>) -> Option<Seq<u8>>;

/// Calls `zstd::encode_all`.
///
/// Not proved: where it succeeds, the bytes are a function of the data and the
/// level, `zstd::decode_all` makes the data of them again, and at level 1, whose
/// windows are small, so does a `ruzstd::decoding::StreamingDecoder`. When it
/// fails is left unsaid: that depends on the memory that is there.
#[verifier::external_body]
fn zstd_encode_all(data: &[u8], level: i32) -> (r: Result<Vec<u8>, std::io::Error>)
    ensures
        r matches Ok(v) ==> v@ == zstd_frame(data@, level),
        r matches Ok(v) ==> zstd_content(v@) == data@,
        r matches Ok(v) ==> level == 1 ==> ruzstd_content(v@) == Some(data@),
{
    zstd::encode_all(data, level)
}

/// Calls `zstd::decode_all`.
///
/// Not proved: where it succeeds, what it returns is a function of the data.
/// When it fails is left unsaid: that depends on the memory that is there, too.
#[verifier::external_body]
fn zstd_decode_all(data: &[u8]) -> (r: Result<Vec<u8>, std::io::Error>)
    ensures
        r matches Ok(v) ==> v@ == zstd_content(data@),
{
    zstd::decode_all(data)
}

/// Reads a `ruzstd::decoding::StreamingDecoder` to its end.
///
/// Not proved: what comes out, and whether it fails, is a function of the data.
#[verifier::external_body]
fn ruzstd_read(data: &[u8]) -> (r: Option<Vec<u8>>)
    ensures
        match r {
            Some(v) => ruzstd_content(data@) == Some(v@),
            None => ruzstd_content(data@) is None,
        },
{
    let mut dec = ruzstd::decoding::StreamingDecoder::new(data).ok()?;
    let mut out = Vec::new();
    dec.read_to_end(&mut out).ok()?;
    Some(out)
}

#[derive(Debug, Clone, Copy, PartialEq, Eq, Structural)]
pub enum CodecError {
    Compress,
    Decompress,
}

/// The compressed bytes, or `raw` where there are none.
pub fn packed_or_raw(packed: Result<Vec<u8>, std::io::Error>, raw: Vec<u8>) -> (r: Vec<u8>)
    ensures
        r == (match packed {
            Ok(v) => v,
            Err(_) => raw,
        }),
{
    match packed {
        Ok(v) => v,
        Err(_) => raw,
    }
}

/// What an outcome of the compressor means to this library.
pub fn coded(outcome: Result<Vec<u8>, std::io::Error>, failed: CodecError) -> (r: Result<
    Vec<u8>,
    CodecError,
>)
    ensures
        r == (match outcome {
            Ok(v) => Ok::<Vec<u8>, CodecError>(v),
            Err(_) => Err(failed),
        }),
{
    match outcome {
        Ok(v) => Ok(v),
        Err(_) => Err(failed),
    }
}

/// The level at which messages are compressed.
pub const MESSAGE_LEVEL: i32 = 1;

/// The level at which segments and snapshots are compressed.
pub const FILE_LEVEL: i32 = 3;

/// `sent` is `raw`, compressed so that a client can read it.
pub open spec fn sends(raw: Seq<u8>, sent: Seq<u8>) -> bool {
    &&& packs(raw, MESSAGE_LEVEL, sent)
    &&& ruzstd_content(sent) == Some(raw)
}

/// `file` is `raw`, compressed so that it can be read again.
pub open spec fn packs(raw: Seq<u8>, level: i32, file: Seq<u8>) -> bool {
    &&& file == zstd_frame(raw, level)
    &&& zstd_content(file) == raw
}

/// `raw` is what `file` holds.
pub open spec fn unpacks(file: Seq<u8>, raw: Seq<u8>) -> bool {
    raw == zstd_content(file)
}

/// A message as it is sent: compressed, or as it is if that fails.
pub fn pack_message(raw: Vec<u8>) -> (r: Vec<u8>)
    ensures
        sends(raw@, r@) || r == raw,
{
    let packed = zstd_encode_all(raw.as_slice(), MESSAGE_LEVEL);
    packed_or_raw(packed, raw)
}

/// The bytes of a file that holds `raw`, compressed.
pub fn pack_file(raw: &Vec<u8>, level: i32) -> (r: Result<Vec<u8>, CodecError>)
    ensures
        match r {
            Ok(v) => packs(raw@, level, v@),
            Err(e) => e == CodecError::Compress,
        },
{
    coded(zstd_encode_all(raw.as_slice(), level), CodecError::Compress)
}

/// What the bytes of a compressed file, or of a message, hold.
pub fn unpack_file(data: &Vec<u8>) -> (r: Result<Vec<u8>, CodecError>)
    ensures
        match r {
            Ok(v) => unpacks(data@, v@),
            Err(e) => e == CodecError::Decompress,
        },
{
    coded(zstd_decode_all(data.as_slice()), CodecError::Decompress)
}

/// What a message that came in holds; the bytes as they are, if they are not
/// compressed.
pub open spec fn decompressed(data: Seq<u8>) -> Seq<u8> {
    match ruzstd_content(data) {
        Some(v) => v,
        None => data,
    }
}

pub fn zstd_decompress(data: &[u8]) -> (r: Vec<u8>)
    ensures
        r@ == decompressed(data@),
{
    match ruzstd_read(data) {
        Some(v) => v,
        None => slice_to_vec(data),
    }
}

/// What is read out of a file is what was written into it.
pub proof fn law_file_reads_back(raw: Seq<u8>, level: i32, file: Seq<u8>, back: Seq<u8>)
    requires
        packs(raw, level, file),
        unpacks(file, back),
    ensures
        back == raw,
{
}

/// A client reads out of a compressed message what the server put into it.
pub proof fn law_message_arrives(raw: Seq<u8>, sent: Seq<u8>)
    requires
        sends(raw, sent),
    ensures
        decompressed(sent) == raw,
{
}

} // verus!
