//! A packed game-data file: gzip-compressed, and under the compression a
//! header (a magic number and a format version that must both match before
//! the contents are trusted) in front of the serialized tables.
use vstd::prelude::*;
use std::io::{Read, Write};

verus! {

/// The magic number of a packed data file ("ACSP", little-endian).
pub const DATA_MAGIC: u32 = 0x5043_5341;

/// The format version that this library reads.
pub const DATA_VERSION: u32 = 1;

/// Why a packed data file's header is refused.
#[derive(PartialEq, Eq, Clone, Copy, Debug, Structural)]
pub enum PackedHeaderError {
    /// The magic number found.
    WrongMagic(u32),
    /// The version found, under the right magic number.
    WrongVersion(u32),
}

/// Checks a header: the magic number first, then the version.
pub fn check_packed_header(magic: u32, version: u32) -> (r: Result<(), PackedHeaderError>)
    ensures
        magic != DATA_MAGIC ==> r == Err::<(), PackedHeaderError>(PackedHeaderError::WrongMagic(magic)),
        magic == DATA_MAGIC && version != DATA_VERSION ==> r == Err::<(), PackedHeaderError>(
            PackedHeaderError::WrongVersion(version),
        ),
        r is Ok <==> (magic == DATA_MAGIC && version == DATA_VERSION),
{
    if magic != DATA_MAGIC {
        Err(PackedHeaderError::WrongMagic(magic))
    } else if version != DATA_VERSION {
        Err(PackedHeaderError::WrongVersion(version))
    } else {
        Ok(())
    }
}

/// What gzip decompression (one member, as `flate2::read::GzDecoder`
/// reads it) gives of `data`: the decompressed bytes, or `None` where the
/// bytes are not a well-formed gzip stream.
pub uninterp spec fn gunzip(data: Seq<u8>) -> Option<Seq<u8>>;

/// What `flate2::write::GzEncoder` with the default compression level and
/// the default header (no name, no comment, modification time 0) writes for
/// `data` into a `Vec`, or `None` where the encoder reports an error.
pub uninterp spec fn gzip_default(data: Seq<u8>) -> Option<Seq<u8>>;

/// `flate2::read::GzDecoder` read to its end: the decompressed bytes, or
/// `None` where the decoder reports an error. The result is named `gunzip`.
#[verifier::external_body]
fn gzip_decompress(data: &[u8]) -> (r: Option<Vec<u8>>)
    ensures
        gunzip(data@) == match r {
            Some(v) => Some(v@),
            None => None::<Seq<u8>>,
        },
{
    let mut buf = Vec::new();
    match flate2::read::GzDecoder::new(data).read_to_end(&mut buf) {
        Ok(_) => Some(buf),
        Err(_) => None,
    }
}

/// `flate2::write::GzEncoder` over a `Vec` with the default compression:
/// the compressed bytes, or `None` where the encoder reports an error; the
/// outcome is named `gzip_default`.
#[verifier::external_body]
fn gzip_compress(data: &[u8]) -> (r: Option<Vec<u8>>)
    ensures
        gzip_default(data@) == match r {
            Some(v) => Some(v@),
            None => None::<Seq<u8>>,
        },
{
    let mut encoder = flate2::write::GzEncoder::new(Vec::new(), flate2::Compression::default());
    match encoder.write_all(data) {
        Ok(()) => encoder.finish().ok(),
        Err(_) => None,
    }
}

/// Why the payload of a packed data file cannot be had.
#[derive(PartialEq, Eq, Clone, Copy, Debug, Structural)]
pub enum UnpackError {
    /// The bytes are not a well-formed gzip stream.
    Corrupt,
    /// They decompress to nothing (a placeholder file).
    Empty,
}

/// The serialized tables of a packed data file: its bytes decompressed;
/// an error where they do not decompress or decompress to nothing.
pub fn unpack_payload(data: &[u8]) -> (r: Result<Vec<u8>, UnpackError>)
    ensures
        gunzip(data@) is None <==> r == Err::<Vec<u8>, UnpackError>(UnpackError::Corrupt),
        gunzip(data@) matches Some(v) && v.len() == 0 <==> r == Err::<Vec<u8>, UnpackError>(UnpackError::Empty),
        r matches Ok(v) ==> gunzip(data@) == Some(v@) && v@.len() > 0,
        gunzip(data@) matches Some(v) && v.len() > 0 ==> r is Ok,
{
    match gzip_decompress(data) {
        None => Err(UnpackError::Corrupt),
        Some(v) => {
            if v.len() == 0 {
                Err(UnpackError::Empty)
            } else {
                Ok(v)
            }
        },
    }
}

/// The bytes of a packed data file for the serialized tables `payload`: the
/// payload gzip-compressed with the default settings (`gzip_default`), or
/// `None` where the compressor reports an error.
pub fn pack_payload(payload: &[u8]) -> (r: Option<Vec<u8>>)
    ensures
        gzip_default(payload@) == match r {
            Some(v) => Some(v@),
            None => None::<Seq<u8>>,
        },
{
    gzip_compress(payload)
}

} // verus!
