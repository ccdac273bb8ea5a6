//! Mesh stream header parsing: magic string, version, geometry type, encoder
//! method, and flags. Point-cloud headers are parsed by the point-cloud
//! decoder.

use vstd::prelude::*;
use crate::error::{DecodeError, ReaderErr};
use crate::reader::{le16, Reader};

verus! {

/// The connectivity encoder method of a mesh stream.
#[derive(Debug, Clone, Copy, PartialEq, Eq)]
pub enum EncoderMethod {
    /// Faces stored as index triples.
    Sequential,
    /// Faces coded by the edgebreaker traversal.
    Edgebreaker,
}

/// The parsed stream header.
#[derive(Debug, Clone, Copy, PartialEq, Eq)]
pub struct Header {
    /// Geometry type id (0 = point cloud, 1 = triangular mesh).
    pub geometry_type: u8,
    /// Connectivity encoder method.
    pub encoder_method: EncoderMethod,
    /// Whether the metadata flag is set.
    pub metadata: bool,
}

/// The flag bit announcing a metadata section.
pub const METADATA_FLAG_MASK: u16 = 0x8000;

/// Whether `s` starts with the five bytes `DRACO`.
pub open spec fn has_magic(s: Seq<u8>) -> bool {
    s.len() >= 5 && s[0] == 68 && s[1] == 82 && s[2] == 65 && s[3] == 67 && s[4] == 79
}

/// How a mesh header at the start of `s` parses: the header and its length
/// (always 11 bytes), or the error the decoder reports, checked in stream
/// order.
pub open spec fn header_parse(s: Seq<u8>) -> Result<(Header, nat), DecodeError> {
    if s.len() < 5 {
        Err(DecodeError::Reader(ReaderErr::NotEnoughData))
    } else if !has_magic(s) {
        Err(DecodeError::InvalidHeader("missing DRACO magic"))
    } else if s.len() < 8 {
        Err(DecodeError::Reader(ReaderErr::NotEnoughData))
    } else if s[5] == 2 && s[7] == 0 {
        Err(DecodeError::UnsupportedPointCloud)
    } else if !(s[5] == 2 && s[6] == 2) {
        Err(DecodeError::UnsupportedVersion(s[5], s[6]))
    } else if s[7] != 1 {
        Err(DecodeError::InvalidHeader("unknown geometry type"))
    } else if s.len() < 9 {
        Err(DecodeError::Reader(ReaderErr::NotEnoughData))
    } else if s[8] > 1 {
        Err(DecodeError::InvalidHeader("unknown encoder method"))
    } else if s.len() < 11 {
        Err(DecodeError::Reader(ReaderErr::NotEnoughData))
    } else {
        Ok(
            (
                Header {
                    geometry_type: s[7],
                    encoder_method: if s[8] == 0 {
                        EncoderMethod::Sequential
                    } else {
                        EncoderMethod::Edgebreaker
                    },
                    metadata: le16(s[9], s[10]) >= 0x8000,
                },
                11nat,
            ),
        )
    }
}

/// Parses the draco header of a mesh stream. Accepts only bitstream 2.2.
pub fn decode_header(reader: &mut Reader<'_>) -> (r: Result<Header, DecodeError>)
    ensures
        match header_parse(old(reader).rest()) {
            Ok((h, k)) => r == Ok::<Header, DecodeError>(h) && final(reader).rest() == old(
                reader,
            ).rest().skip(k as int),
            Err(e) => r == Err::<Header, DecodeError>(e),
        },
{
    let ghost s0 = reader.rest();
    let magic = match reader.read_bytes(5) {
        Ok(m) => m,
        Err(e) => return Err(DecodeError::Reader(e)),
    };
    if !(magic[0] == 68 && magic[1] == 82 && magic[2] == 65 && magic[3] == 67 && magic[4] == 79) {
        return Err(DecodeError::InvalidHeader("missing DRACO magic"));
    }
    let major = match reader.read_u8() {
        Ok(b) => b,
        Err(e) => return Err(DecodeError::Reader(e)),
    };
    let minor = match reader.read_u8() {
        Ok(b) => b,
        Err(e) => return Err(DecodeError::Reader(e)),
    };
    let geometry_type = match reader.read_u8() {
        Ok(b) => b,
        Err(e) => return Err(DecodeError::Reader(e)),
    };
    // Point clouds are bitstream 2.3, so a version-first check would report
    // every point-cloud file as a bad version instead.
    if major == 2 && geometry_type == 0 {
        return Err(DecodeError::UnsupportedPointCloud);
    }
    if !(major == 2 && minor == 2) {
        return Err(DecodeError::UnsupportedVersion(major, minor));
    }
    if geometry_type != 1 {
        return Err(DecodeError::InvalidHeader("unknown geometry type"));
    }
    let method_id = match reader.read_u8() {
        Ok(b) => b,
        Err(e) => return Err(DecodeError::Reader(e)),
    };
    let encoder_method = if method_id == 0 {
        EncoderMethod::Sequential
    } else if method_id == 1 {
        EncoderMethod::Edgebreaker
    } else {
        return Err(DecodeError::InvalidHeader("unknown encoder method"));
    };
    let flags = match reader.read_u16() {
        Ok(f) => f,
        Err(e) => return Err(DecodeError::Reader(e)),
    };
    let metadata = flags & METADATA_FLAG_MASK != 0;
    proof {
        assert(metadata == (flags >= 0x8000)) by (bit_vector)
            requires
                metadata == (flags & 0x8000u16 != 0),
        ;
        assert(reader.rest() =~= s0.skip(11));
    }
    Ok(Header { geometry_type, encoder_method, metadata })
}

/// Whether the bytes carry a point-cloud stream (header geometry type 0).
pub fn is_point_cloud_stream(bytes: &[u8]) -> (b: bool)
    ensures
        b <==> bytes@.len() >= 11 && has_magic(bytes@) && bytes@[7] == 0,
{
    bytes.len() >= 11 && bytes[0] == 68 && bytes[1] == 82 && bytes[2] == 65 && bytes[3] == 67
        && bytes[4] == 79 && bytes[7] == 0
}

} // verus!
