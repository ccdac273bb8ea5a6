//! Triangle meshes: the header, metadata, connectivity and attribute
//! sections of a mesh stream, decoded in stream order.

use vstd::prelude::*;
use crate::attribute::section::{position_faces_spec, read_traversed_attributes, traversed_section};
use crate::attribute::sequential::{attribute_matches, decode_attributes, sequential_section, transforms_match};
use crate::attribute::MeshAttribute;
use crate::connectivity::edgebreaker::{connectivity_wf, eb_decoded, eb_prelude_errors, eb_seams, eb_standard_outcome, EdgebreakerConnectivity};
use crate::connectivity::sequential::{faces_of, sequential_fits, sequential_parse};
use crate::connectivity::{as_edgebreaker, decode_connectivity, Connectivity};
use crate::error::DecodeError;
use crate::header::{decode_header, header_parse, EncoderMethod, Header};
use crate::metadata::{decode_metadata, section_len};
use crate::point_cloud::AttributeTransform;
use crate::reader::Reader;

verus! {

/// A triangle mesh with attributes in portable integer form.
#[derive(Debug, Clone)]
pub struct Mesh {
    /// Each face as three point indices.
    pub faces: Vec<[usize; 3]>,
    /// The attributes, in stream order.
    pub attributes: Vec<MeshAttribute>,
}

/// A decoded mesh with the parameters that reconstruct each attribute's
/// original values.
#[derive(Debug, Clone)]
pub struct PortableMesh {
    pub mesh: Mesh,
    /// The reconstruction parameters of each attribute, in attribute order.
    pub transforms: Vec<AttributeTransform>,
}

/// The header of the mesh stream `s` and the bytes the header and the
/// metadata section it announces span, or the error reading them gives.
pub open spec fn mesh_prelude(s: Seq<u8>) -> Result<(Header, nat), DecodeError> {
    match header_parse(s) {
        Err(e) => Err(e),
        Ok((h, k)) => if h.metadata {
            match section_len(s.skip(k as int)) {
                Ok(n) => Ok((h, k + n)),
                Err(e) => Err(e),
            }
        } else {
            Ok((h, k))
        },
    }
}

/// Whether `r` is what a sequentially encoded mesh body `s` (connectivity,
/// then attribute section) decodes to: its faces, and per attribute the
/// values and reconstruction parameters of the sequential section.
pub open spec fn sequential_mesh_outcome(s: Seq<u8>, r: Result<PortableMesh, DecodeError>) -> bool {
    if !sequential_fits(s) {
        r == Err::<PortableMesh, DecodeError>(DecodeError::MalformedConnectivity("face index overflow"))
    } else {
        match sequential_parse(s) {
            None => r is Err,
            Some((v, np, k)) => match sequential_section(s.skip(k as int), np as nat) {
                None => r is Err,
                Some(Err(e)) => r == Err::<PortableMesh, DecodeError>(e),
                Some(Ok((ds, ps, vs, offs, k2))) => r matches Ok(m) && m.mesh.faces@ == faces_of(v)
                    && m.mesh.attributes@.len() == ds.len() && m.transforms@.len() == ds.len()
                    && (forall|j: int| 0 <= j < ds.len() ==> attribute_matches(#[trigger] m.mesh.attributes@[j], ds[j], vs[j]))
                    && transforms_match(s.skip(k as int), ds, offs, m.transforms@),
            },
        }
    }
}

/// Whether `c` is an outcome that the edgebreaker connectivity decoder may
/// give on `s`, with `rest` the bytes left after it.
pub open spec fn eb_connectivity_outcome(s: Seq<u8>, c: Result<EdgebreakerConnectivity, DecodeError>, rest: Seq<u8>) -> bool {
    &&& eb_prelude_errors(s, c)
    &&& eb_standard_outcome(s, c)
    &&& eb_seams(s, c)
    &&& c matches Ok(conn) ==> connectivity_wf(conn) && eb_decoded(s, rest, conn)
}

/// Whether `r` is what an edgebreaker mesh gives after its connectivity
/// decoded to `c` with `rest` left: the connectivity's error, the attribute
/// section's error, the position faces where the stream carries no
/// attribute, and otherwise [`DecodeError::Unimplemented`], as this library
/// does not run the per-attribute value walks.
pub open spec fn traversed_mesh_outcome(
    rest: Seq<u8>,
    c: Result<EdgebreakerConnectivity, DecodeError>,
    r: Result<PortableMesh, DecodeError>,
) -> bool {
    match c {
        Err(e) => r == Err::<PortableMesh, DecodeError>(e),
        Ok(conn) => match traversed_section(rest, conn) {
            None => r is Err,
            Some(Err(e)) => r == Err::<PortableMesh, DecodeError>(e),
            Some(Ok((ds, sizes, ps, offs, k1, k))) => if ds.len() == 0 {
                r matches Ok(m) && m.mesh.faces@ == position_faces_spec(conn) && m.mesh.attributes@.len() == 0
                    && m.transforms@.len() == 0
            } else {
                r == Err::<PortableMesh, DecodeError>(DecodeError::Unimplemented)
            },
        },
    }
}

/// Whether `r` is what an edgebreaker mesh body `s` decodes to, for some
/// outcome of its connectivity.
pub open spec fn edgebreaker_mesh_outcome(s: Seq<u8>, r: Result<PortableMesh, DecodeError>) -> bool {
    exists|c: Result<EdgebreakerConnectivity, DecodeError>, rest: Seq<u8>|
        #[trigger] eb_connectivity_outcome(s, c, rest) && traversed_mesh_outcome(rest, c, r)
}

/// Whether `r` is what the mesh stream `bytes` decodes to.
pub open spec fn mesh_outcome(bytes: Seq<u8>, r: Result<PortableMesh, DecodeError>) -> bool {
    match mesh_prelude(bytes) {
        Err(e) => r == Err::<PortableMesh, DecodeError>(e),
        Ok((h, k)) => if h.encoder_method == EncoderMethod::Sequential {
            sequential_mesh_outcome(bytes.skip(k as int), r)
        } else {
            edgebreaker_mesh_outcome(bytes.skip(k as int), r)
        },
    }
}

/// Skipping `a` then `b` bytes is skipping `a + b` bytes.
proof fn lemma_skip_skip(s: Seq<u8>, a: int, b: int)
    requires
        0 <= a,
        0 <= b,
        a + b <= s.len(),
    ensures
        s.skip(a).skip(b) == s.skip(a + b),
{
    assert(s.skip(a).skip(b) =~= s.skip(a + b));
}

/// Decodes the attribute section of an edgebreaker mesh over `conn`.
fn decode_traversed_mesh(reader: &mut Reader<'_>, conn: &EdgebreakerConnectivity) -> (r: Result<PortableMesh, DecodeError>)
    requires
        connectivity_wf(*conn),
    ensures
        traversed_mesh_outcome(old(reader).rest(), Ok(*conn), r),
{
    let t = read_traversed_attributes(reader, conn)?;
    match t.faces {
        Some(faces) if t.descriptors.len() == 0 => Ok(
            PortableMesh { mesh: Mesh { faces, attributes: Vec::new() }, transforms: Vec::new() },
        ),
        _ => Err(DecodeError::Unimplemented),
    }
}

/// Decodes a triangle-mesh stream into its faces and portable integer
/// attributes with their reconstruction parameters.
pub fn decode_portable(bytes: &[u8]) -> (r: Result<PortableMesh, DecodeError>)
    ensures
        mesh_outcome(bytes@, r),
{
    let mut reader = Reader::new(bytes);
    let ghost s0 = reader.rest();
    let header = decode_header(&mut reader)?;
    let ghost k0 = header_parse(s0)->Ok_0.1;
    if header.metadata {
        decode_metadata(&mut reader)?;
        proof {
            let n = section_len(s0.skip(k0 as int))->Ok_0;
            lemma_skip_skip(s0, k0 as int, n as int);
        }
    }
    let ghost s1 = reader.rest();
    let conn = decode_connectivity(&mut reader, header.encoder_method);
    let ghost s2 = reader.rest();
    match header.encoder_method {
        EncoderMethod::Sequential => {
            let conn = match conn {
                Ok(Connectivity::Sequential(c)) => c,
                Ok(Connectivity::Edgebreaker(_)) => {
                    return Err(DecodeError::Unimplemented);
                },
                Err(e) => {
                    return Err(e);
                },
            };
            let d = decode_attributes(&mut reader, &conn)?;
            Ok(PortableMesh { mesh: Mesh { faces: d.faces, attributes: d.attributes }, transforms: d.transforms })
        },
        EncoderMethod::Edgebreaker => {
            let ghost c = as_edgebreaker(conn);
            proof {
                assert(eb_connectivity_outcome(s1, c, s2));
            }
            let r = match conn {
                Ok(Connectivity::Edgebreaker(e)) => decode_traversed_mesh(&mut reader, &e),
                Ok(Connectivity::Sequential(_)) => Err(DecodeError::Unimplemented),
                Err(e) => Err(e),
            };
            proof {
                assert(traversed_mesh_outcome(s2, c, r));
                assert(edgebreaker_mesh_outcome(s1, r));
            }
            r
        },
    }
}

} // verus!
