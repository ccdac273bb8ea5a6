//! The decoder entry point.

use vstd::prelude::*;
use crate::error::DecodeError;
use crate::mesh::{mesh_outcome, PortableMesh};
use crate::point_cloud::{
    decode_portable, kd_header_error, pc_body_outcome, pc_header_parse, pc_prelude_parse, point_cloud_shaped,
    AttributeTransform, PointCloud,
};

verus! {

/// A decoded point cloud whose attributes are still in their portable
/// integer form, with the parameters that reconstruct the original values.
#[derive(Debug, Clone)]
pub struct PortablePointCloud {
    /// The point cloud with integer attributes.
    pub point_cloud: PointCloud,
    /// The reconstruction parameters of each attribute, in attribute order.
    pub transforms: Vec<AttributeTransform>,
}

/// Whether `r` agrees with what the stream prelude `bytes` decides: its
/// errors, the compression level and kd-tree header errors, and, on success,
/// the point count and each attribute's kind, component type and count.
pub open spec fn portable_prelude_outcome(bytes: Seq<u8>, r: Result<PortablePointCloud, DecodeError>) -> bool {
    match pc_prelude_parse(bytes) {
        Err(e) => r == Err::<PortablePointCloud, DecodeError>(e),
        Ok((np, ds, lvl, k)) => {
            &&& lvl > 6 ==> r == Err::<PortablePointCloud, DecodeError>(
                DecodeError::MalformedAttribute("unsupported kd-tree compression level"),
            )
            &&& lvl <= 6 ==> (kd_header_error(bytes.skip(k as int), np) matches Some(e) ==> r == Err::<
                PortablePointCloud,
                DecodeError,
            >(e))
            &&& r matches Ok(p) ==> p.point_cloud.num_points == np && p.point_cloud.attributes@.len()
                == ds.len() && (forall|i: int|
                0 <= i < ds.len() ==> (#[trigger] p.point_cloud.attributes@[i]).att_type == ds[i].att_type
                    && p.point_cloud.attributes@[i].component_type == ds[i].component_type
                    && p.point_cloud.attributes@[i].num_components == ds[i].num_components)
        },
    }
}

/// Whether `r` holds what the stream `bytes` decodes to past its prelude:
/// the kd-tree coordinates, reconstruction parameters, shifts and values
/// that [`pc_body_outcome`] describes.
pub open spec fn portable_body_outcome(bytes: Seq<u8>, r: Result<PortablePointCloud, DecodeError>) -> bool {
    pc_body_outcome(
        bytes,
        match r {
            Ok(p) => Ok::<(PointCloud, Vec<AttributeTransform>), DecodeError>((p.point_cloud, p.transforms)),
            Err(e) => Err(e),
        },
    )
}

/// The decoder. One instance can be reused across decodes.
#[derive(Debug, Default)]
pub struct Decoder {}

impl Decoder {
    /// Creates a new decoder.
    pub fn new() -> (r: Self) {
        Decoder {}
    }

    /// Decodes a point-cloud stream (kd-tree method) into portable integer
    /// attributes and their reconstruction parameters.
    pub fn decode_point_cloud_portable(&mut self, bytes: &[u8]) -> (r: Result<
        PortablePointCloud,
        DecodeError,
    >)
        ensures
            pc_header_parse(bytes@) matches Err(e) ==> r == Err::<PortablePointCloud, DecodeError>(
                e,
            ),
            r matches Ok(p) ==> pc_header_parse(bytes@) is Ok && point_cloud_shaped(
                p.point_cloud,
                p.transforms@,
            ),
            portable_prelude_outcome(bytes@, r),
            portable_body_outcome(bytes@, r),
    {
        let (point_cloud, transforms) = decode_portable(bytes)?;
        Ok(PortablePointCloud { point_cloud, transforms })
    }

    /// Decodes a triangle-mesh stream into portable integer attributes and
    /// their reconstruction parameters.
    pub fn decode_mesh_portable(&mut self, bytes: &[u8]) -> (r: Result<PortableMesh, DecodeError>)
        ensures
            mesh_outcome(bytes@, r),
    {
        crate::mesh::decode_portable(bytes)
    }
}

/// Decodes a triangle-mesh stream into portable integer attributes with a
/// freshly constructed [`Decoder`].
pub fn decode_mesh_portable(bytes: &[u8]) -> (r: Result<PortableMesh, DecodeError>)
    ensures
        mesh_outcome(bytes@, r),
{
    Decoder::new().decode_mesh_portable(bytes)
}

/// Decodes a point-cloud stream into portable integer attributes with a
/// freshly constructed [`Decoder`].
pub fn decode_point_cloud_portable(bytes: &[u8]) -> (r: Result<PortablePointCloud, DecodeError>)
    ensures
        pc_header_parse(bytes@) matches Err(e) ==> r == Err::<PortablePointCloud, DecodeError>(e),
        r matches Ok(p) ==> pc_header_parse(bytes@) is Ok && point_cloud_shaped(
            p.point_cloud,
            p.transforms@,
        ),
        portable_prelude_outcome(bytes@, r),
        portable_body_outcome(bytes@, r),
{
    Decoder::new().decode_point_cloud_portable(bytes)
}

} // verus!
