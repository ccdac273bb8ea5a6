//! Connectivity decoding, dispatched on the encoder method.

pub mod corner;
pub mod sequential;
pub mod edgebreaker;

use vstd::prelude::*;
use crate::error::DecodeError;
use crate::header::EncoderMethod;
use crate::reader::Reader;
use edgebreaker::{connectivity_wf, eb_decoded, eb_prelude_errors, eb_seams, eb_standard_outcome, EdgebreakerConnectivity};
use sequential::{sequential_fits, sequential_parse, SequentialConnectivity, faces_of};

verus! {

/// The decoded connectivity.
pub enum Connectivity {
    /// Connectivity decoded from an edgebreaker-encoded stream.
    Edgebreaker(EdgebreakerConnectivity),
    /// Connectivity decoded from a sequentially encoded stream.
    Sequential(SequentialConnectivity),
}

impl Connectivity {
    /// The corner-table connectivity, if edgebreaker-encoded.
    pub fn edgebreaker(&self) -> (r: Option<&EdgebreakerConnectivity>)
        ensures
            self is Edgebreaker <==> r is Some,
            r matches Some(c) ==> self == Connectivity::Edgebreaker(*c),
    {
        match self {
            Connectivity::Edgebreaker(conn) => Some(conn),
            Connectivity::Sequential(_) => None,
        }
    }
}

/// The edgebreaker connectivity a decode result holds, as a result.
pub open spec fn as_edgebreaker(r: Result<Connectivity, DecodeError>) -> Result<EdgebreakerConnectivity, DecodeError> {
    match r {
        Ok(Connectivity::Edgebreaker(e)) => Ok(e),
        Ok(Connectivity::Sequential(_)) => Err(DecodeError::Unimplemented),
        Err(e) => Err(e),
    }
}

/// Decodes the connectivity section with the method the header names.
pub fn decode_connectivity(reader: &mut Reader<'_>, encoder_method: EncoderMethod) -> (r: Result<Connectivity, DecodeError>)
    ensures
        encoder_method == EncoderMethod::Edgebreaker ==> (r matches Ok(c) ==> (c matches Connectivity::Edgebreaker(e) && connectivity_wf(e)
            && eb_decoded(old(reader).rest(), final(reader).rest(), e))),
        encoder_method == EncoderMethod::Edgebreaker ==> eb_prelude_errors(old(reader).rest(), as_edgebreaker(r))
            && eb_standard_outcome(old(reader).rest(), as_edgebreaker(r)) && eb_seams(old(reader).rest(), as_edgebreaker(r)),
        encoder_method == EncoderMethod::Sequential && !sequential_fits(old(reader).rest()) ==> r
            == Err::<Connectivity, DecodeError>(DecodeError::MalformedConnectivity("face index overflow")),
        encoder_method == EncoderMethod::Sequential && sequential_fits(old(reader).rest()) ==> match sequential_parse(old(reader).rest()) {
            Some((v, np, k)) => r matches Ok(Connectivity::Sequential(c)) && c.faces@ == faces_of(v) && c.num_points == np
                && final(reader).rest() == old(reader).rest().skip(k as int),
            None => r is Err,
        },
{
    match encoder_method {
        EncoderMethod::Edgebreaker => match edgebreaker::decode(reader) {
            Ok(e) => Ok(Connectivity::Edgebreaker(e)),
            Err(e) => Err(e),
        },
        EncoderMethod::Sequential => Ok(Connectivity::Sequential(sequential::decode(reader)?)),
    }
}

} // verus!
