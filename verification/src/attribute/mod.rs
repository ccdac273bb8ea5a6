//! Attribute decoding: descriptors, payload framing, and the per-stream
//! attribute sections.

pub mod inverse_transform;
pub mod payload;
pub mod prediction;
pub mod section;
pub mod sectors;
pub mod sequential;
pub mod traversed;
pub mod walks;

use vstd::prelude::*;
use crate::decode::attribute::TraversalType;
use crate::error::{DecodeError, ReaderErr};
use crate::point_cloud::{AttributeKind, AttributeTransform, ComponentType};
use crate::reader::{leb128_parse, leb128_read, Reader};
use payload::{parse_payload, payload_parse, payload_view, Payload, PORT_GENERIC, PORT_OCTAHEDRAL};
use prediction::PredictionSchemeType;
use inverse_transform::InverseTransform;

verus! {

/// The wire id of an attribute riding the position connectivity.
pub const NO_ATTRIBUTE_DATA: u8 = 0xFF;

/// Where an attribute's values live.
#[derive(Debug, Clone, Copy, PartialEq, Eq, Structural)]
pub enum AttributeDomain {
    /// One value per position vertex (wire id 0).
    Position,
    /// Values per face corner (wire id 1).
    Corner,
}

/// The domain that wire id `id` names.
pub open spec fn domain_of(id: u8) -> Option<AttributeDomain> {
    if id == 0 {
        Some(AttributeDomain::Position)
    } else if id == 1 {
        Some(AttributeDomain::Corner)
    } else {
        None
    }
}

impl AttributeDomain {
    /// Reads a domain byte.
    pub fn read_from(reader: &mut Reader<'_>) -> (r: Result<Self, DecodeError>)
        ensures
            old(reader).rest().len() == 0 ==> r == Err::<Self, DecodeError>(
                DecodeError::Reader(ReaderErr::NotEnoughData),
            ),
            old(reader).rest().len() > 0 ==> match domain_of(old(reader).rest()[0]) {
                Some(d) => r == Ok::<Self, DecodeError>(d) && final(reader).rest() == old(
                    reader,
                ).rest().skip(1),
                None => r == Err::<Self, DecodeError>(
                    DecodeError::MalformedAttribute("unknown attribute domain"),
                ),
            },
    {
        match reader.read_u8() {
            Ok(0) => Ok(AttributeDomain::Position),
            Ok(1) => Ok(AttributeDomain::Corner),
            Ok(_) => Err(DecodeError::MalformedAttribute("unknown attribute domain")),
            Err(e) => Err(DecodeError::Reader(e)),
        }
    }
}

/// The LEB128 number at the start of `s` as the reader yields it: its
/// value and length, or the reader's error.
pub open spec fn leb_value(s: Seq<u8>) -> Result<(nat, nat), ReaderErr> {
    match leb128_parse(s) {
        None => Err(ReaderErr::NotEnoughData),
        Some((n, v)) => if n <= 10 && v <= u64::MAX {
            Ok((v, n))
        } else {
            Err(ReaderErr::VarintOverflow)
        },
    }
}

/// Reads an LEB128 number, as [`leb_value`] describes.
pub fn read_leb(reader: &mut Reader<'_>) -> (r: Result<u64, DecodeError>)
    ensures
        match leb_value(old(reader).rest()) {
            Ok((v, n)) => r == Ok::<u64, DecodeError>(v as u64) && n <= old(reader).rest().len()
                && final(reader).rest() == old(reader).rest().skip(n as int),
            Err(e) => r == Err::<u64, DecodeError>(DecodeError::Reader(e)),
        },
{
    proof {
        crate::reader::lemma_leb128_len(old(reader).rest());
    }
    match leb128_read(reader) {
        Ok(v) => Ok(v),
        Err(e) => Err(DecodeError::Reader(e)),
    }
}

/// One attribute's wire descriptor.
#[derive(Debug, Clone, Copy, PartialEq, Eq, Structural)]
pub struct Descriptor {
    /// The attribute connectivity stream it rides, or [`NO_ATTRIBUTE_DATA`].
    pub att_data_id: u8,
    pub att_type: AttributeKind,
    pub component_type: ComponentType,
    pub num_components: usize,
    pub uid: u32,
    /// The portabilization wire id.
    pub port_type: u8,
    pub domain: AttributeDomain,
    pub traversal: TraversalType,
}

impl Descriptor {
    /// Components of the portable representation; octahedral travels as two.
    pub open spec fn portable_n(self) -> nat {
        if self.port_type == PORT_OCTAHEDRAL {
            2
        } else {
            self.num_components as nat
        }
    }

    /// Whether the attribute can be a prediction parent: the geometric
    /// schemes read the parent as three-dimensional positions.
    pub open spec fn prediction_parent(self) -> bool {
        self.att_type == AttributeKind::Position && self.port_type != PORT_GENERIC
            && self.num_components == 3
    }

    /// Components of the portable representation.
    pub fn portable_num_components(&self) -> (n: usize)
        ensures
            n == self.portable_n(),
    {
        if self.port_type == PORT_OCTAHEDRAL {
            2
        } else {
            self.num_components
        }
    }

    /// Whether the attribute can be a prediction parent.
    pub fn is_prediction_parent(&self) -> (b: bool)
        ensures
            b == self.prediction_parent(),
    {
        self.att_type == AttributeKind::Position && self.port_type != PORT_GENERIC
            && self.num_components == 3
    }
}

/// One decoded attribute in portable form: `num_components` i32 values per
/// entry, entry after entry.
#[derive(Debug, Clone)]
pub struct MeshAttribute {
    pub uid: u32,
    pub att_type: AttributeKind,
    pub domain: AttributeDomain,
    /// Components per value in the portable representation.
    pub num_components: usize,
    pub values: Vec<i32>,
}

/// The decoded attribute section: faces as point triples, and per
/// attribute its values and reconstruction parameters.
#[derive(Debug, Clone)]
pub struct DecodedAttributes {
    pub faces: Vec<[usize; 3]>,
    pub attributes: Vec<MeshAttribute>,
    pub transforms: Vec<AttributeTransform>,
}

/// The payload of attribute `d` with `num_values` values at the start of
/// `s`: refused where its portable component count lies outside one to
/// four, or its correction count does not fit in memory.
#[verifier::opaque]
pub open spec fn dispatched_parse(s: Seq<u8>, num_values: nat, d: Descriptor) -> Option<
    Result<
        (PredictionSchemeType, Seq<int>, Seq<bool>, Seq<bool>, Seq<Seq<bool>>, InverseTransform, nat),
        DecodeError,
    >,
> {
    let n = d.portable_n();
    if !(1 <= n <= 4) {
        Some(Err(DecodeError::MalformedAttribute("unsupported number of components")))
    } else if num_values * n > usize::MAX / 4 {
        Some(Err(DecodeError::AllocationTooLarge("attribute values")))
    } else {
        payload_parse(s, num_values, n, d.port_type, d.component_type)
    }
}

/// Parses the payload of attribute `desc` with `num_values` values.
pub fn parse_payload_dispatched(reader: &mut Reader<'_>, num_values: usize, desc: &Descriptor) -> (r:
    Result<Payload, DecodeError>)
    ensures
        match dispatched_parse(old(reader).rest(), num_values as nat, *desc) {
            Some(Ok((sc, c, f, o, cr, t, k))) => (r matches Ok(p) && payload_view(p) == (sc, c, f, o, cr, t)
                && k <= old(reader).rest().len() && final(reader).rest() == old(reader).rest().skip(k as int)),
            Some(Err(e)) => r == Err::<Payload, DecodeError>(e),
            None => r is Err,
        },
{
    reveal(dispatched_parse);
    let n = desc.portable_num_components();
    if !(1 <= n && n <= 4) {
        return Err(DecodeError::MalformedAttribute("unsupported number of components"));
    }
    if num_values > (usize::MAX / 4) / n {
        proof {
            assert(num_values * n > usize::MAX / 4) by (nonlinear_arith)
                requires
                    num_values > (usize::MAX / 4) / n,
                    n >= 1,
            ;
        }
        return Err(DecodeError::AllocationTooLarge("attribute values"));
    }
    proof {
        assert(num_values * n <= usize::MAX / 4) by (nonlinear_arith)
            requires
                num_values <= (usize::MAX / 4) / n,
                n >= 1,
        ;
    }
    parse_payload(reader, num_values, n, desc.port_type, desc.component_type)
}

} // verus!
