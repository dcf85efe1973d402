//! The optional gzip layer around a tag file.
use vstd::prelude::*;

use crate::error::NbtError;

verus! {

#[verifier::external_type_specification]
#[verifier::external_body]
pub struct ExIoError(std::io::Error);

/// What gzip decompression makes of `data`: the unpacked bytes, or `None`
/// where `data` is not a complete, intact gzip stream.
pub uninterp spec fn gunzip_result(data: Seq<u8>) -> Option<Seq<u8>>;

/// `data` starts with the gzip magic `1F 8B 08` (deflate).
pub open spec fn gzip_magic(data: Seq<u8>) -> bool {
    data.len() >= 3 && data[0] == 0x1f && data[1] == 0x8b && data[2] == 0x08
}

/// Relies on flate2's `read::GzDecoder`, read to its end: what comes out
/// depends on the input bytes alone, success included.
#[verifier::external_body]
fn gunzip(data: &[u8]) -> (r: Result<Vec<u8>, std::io::Error>)
    ensures
        r is Ok <==> gunzip_result(data@) is Some,
        r is Ok ==> Some(r->Ok_0@) == gunzip_result(data@),
{
    let mut out = Vec::new();
    std::io::Read::read_to_end(&mut flate2::read::GzDecoder::new(data), &mut out)?;
    Ok(out)
}

pub fn has_gzip_magic(data: &[u8]) -> (r: bool)
    ensures
        r == gzip_magic(data@),
{
    data.len() >= 3 && data[0] == 0x1f && data[1] == 0x8b && data[2] == 0x08
}

/// Decompresses `data` where it carries the gzip magic, and hands any other
/// data back as it is.
pub fn unpack(data: Vec<u8>) -> (r: Result<Vec<u8>, NbtError>)
    ensures
        !gzip_magic(data@) ==> r is Ok && r->Ok_0@ == data@,
        gzip_magic(data@) ==> (r is Ok <==> gunzip_result(data@) is Some),
        gzip_magic(data@) && r is Ok ==> Some(r->Ok_0@) == gunzip_result(data@),
        gzip_magic(data@) && r is Err ==> r->Err_0 == NbtError::Decompression,
{
    if !has_gzip_magic(data.as_slice()) {
        return Ok(data);
    }
    match gunzip(data.as_slice()) {
        Ok(out) => Ok(out),
        Err(_) => Err(NbtError::Decompression),
    }
}

} // verus!
