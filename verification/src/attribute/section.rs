//! The attribute section of an edgebreaker stream read end to end: the
//! descriptors, seam columns and walk groups, the value count of each walk,
//! every payload and portabilization block, and the plan of the walks.

use vstd::prelude::*;
use crate::attribute::{Descriptor};
use crate::attribute::payload::{Payload, PORT_OCTAHEDRAL};
use crate::attribute::prediction::PredictionSchemeType;
use crate::attribute::sequential::{payload_models, transforms_match, PayloadModel};
use crate::attribute::traversed::{
    check_traversals, decoders_parse, group_ids, group_num_values, group_of, group_value_count,
    interior_traversal_refused, lemma_group_of, parse_traversed_payloads, position_faces,
    read_traversed_descriptors, seam_column, seam_columns, sum_of, traversed_descriptors_parse,
    union_mask, union_mask_of,
};
use crate::attribute::walks::{fused_into_interior, parent_missing, plan_matches, plan_walks, WalkPlan};
use crate::connectivity::corner::INVALID;
use crate::connectivity::edgebreaker::{connectivity_wf, EdgebreakerConnectivity};
use crate::connectivity::edgebreaker::traversal::SeamStats;
use crate::error::DecodeError;
use crate::point_cloud::AttributeTransform;
use crate::reader::Reader;

verus! {

/// The seam column of every attribute.
pub open spec fn masks_spec(ds: Seq<Descriptor>, stats: Seq<SeamStats>) -> Seq<u8> {
    Seq::new(ds.len(), |i: int| seam_column(ds[i], stats)->Ok_0.0)
}

/// The interior flag of every attribute.
pub open spec fn interior_spec(ds: Seq<Descriptor>, stats: Seq<SeamStats>) -> Seq<bool> {
    Seq::new(ds.len(), |i: int| seam_column(ds[i], stats)->Ok_0.1)
}

/// Whether every attribute names a seam stream the connectivity encoded.
pub open spec fn columns_ok(ds: Seq<Descriptor>, stats: Seq<SeamStats>) -> bool {
    forall|i: int| 0 <= i < ds.len() ==> #[trigger] seam_column(ds[i], stats) is Ok
}

/// The group of every attribute.
pub open spec fn ids_spec(ds: Seq<Descriptor>, interior: Seq<bool>, masks: Seq<u8>, seam_bits: Seq<u8>) -> Seq<usize> {
    Seq::new(ds.len(), |i: int| group_of(ds, interior, masks, seam_bits, i) as usize)
}

/// Whether the value count of every group fits.
pub open spec fn values_ok(
    ds: Seq<Descriptor>,
    interior: Seq<bool>,
    ids: Seq<usize>,
    stats: Seq<SeamStats>,
    referenced: nat,
) -> bool {
    forall|i: int| 0 <= i < ds.len() && #[trigger] ids[i] == i ==> group_value_count(ds[i], interior[i], stats, referenced) is Some
}

/// The value count of every group at its first attribute, zero elsewhere.
pub open spec fn nvs_spec(
    ds: Seq<Descriptor>,
    interior: Seq<bool>,
    ids: Seq<usize>,
    stats: Seq<SeamStats>,
    referenced: nat,
) -> Seq<usize> {
    Seq::new(
        ds.len(),
        |i: int|
            (if ids[i] == i {
                group_value_count(ds[i], interior[i], stats, referenced)->0
            } else {
                0
            }) as usize,
    )
}

/// The value count of the group of every attribute.
pub open spec fn member_nvs(ids: Seq<usize>, nvs: Seq<usize>) -> Seq<usize> {
    Seq::new(ids.len(), |i: int| nvs[ids[i] as int])
}

/// Whether each payload's scheme predicts from a decoded position.
pub open spec fn needs_parent_spec(ps: Seq<PayloadModel>) -> Seq<bool> {
    Seq::new(
        ps.len(),
        |i: int|
            ps[i].0 == PredictionSchemeType::MeshNormalPrediction || ps[i].0
                == PredictionSchemeType::MeshPredictionForTextureCoordinates,
    )
}

/// Whether each payload is a two-component normal prediction.
pub open spec fn fusable_spec(ps: Seq<PayloadModel>, ds: Seq<Descriptor>) -> Seq<bool> {
    Seq::new(ps.len(), |i: int| ps[i].0 == PredictionSchemeType::MeshNormalPrediction && ds[i].portable_n() == 2)
}

/// Whether each attribute can parent a geometric prediction.
pub open spec fn parent_ok_spec(ds: Seq<Descriptor>) -> Seq<bool> {
    Seq::new(ds.len(), |i: int| ds[i].prediction_parent())
}

/// The position vertices among the first `n` that some corner references.
pub open spec fn referenced_count(vertex_corners: Seq<usize>, n: int) -> nat
    decreases n,
{
    if n <= 0 {
        0
    } else {
        referenced_count(vertex_corners, n - 1) + if vertex_corners[n - 1] != INVALID {
            1nat
        } else {
            0nat
        }
    }
}

/// The sizes as machine integers.
pub open spec fn usizes_of(zs: Seq<nat>) -> Seq<usize> {
    Seq::new(zs.len(), |i: int| zs[i] as usize)
}

/// The attribute section of an edgebreaker stream over `conn` at the start
/// of `s`: the descriptors, the attribute count of each decoder, the
/// payloads, where each portabilization block starts (relative to the end
/// of the descriptors) and the bytes the section spans; or the first
/// error. `None` where a correction stream does not parse.
pub open spec fn traversed_section(s: Seq<u8>, conn: EdgebreakerConnectivity) -> Option<
    Result<(Seq<Descriptor>, Seq<nat>, Seq<PayloadModel>, Seq<nat>, nat, nat), DecodeError>,
> {
    let stats = conn.seam_stats@;
    match traversed_descriptors_parse(s) {
        Err(e) => Some(Err(e)),
        Ok((ds, sizes, k1)) => if !columns_ok(ds, stats) {
            Some(Err(DecodeError::MalformedAttribute("attribute names a seam stream the connectivity did not encode")))
        } else {
            let masks = masks_spec(ds, stats);
            let interior = interior_spec(ds, stats);
            if interior_traversal_refused(ds, interior) {
                Some(Err(DecodeError::MalformedAttribute("prediction-degree traversal on an attribute with interior seams")))
            } else {
                let ids = ids_spec(ds, interior, masks, conn.seam_bits@);
                let referenced = referenced_count(conn.vertex_corners@, conn.num_vertices as int);
                if !values_ok(ds, interior, ids, stats, referenced) {
                    Some(Err(DecodeError::MalformedAttribute("seam statistics out of range")))
                } else {
                    let nvs = nvs_spec(ds, interior, ids, stats, referenced);
                    match decoders_parse(s.skip(k1 as int), member_nvs(ids, nvs), ds, usizes_of(sizes)) {
                        None => None,
                        Some(Err(e)) => Some(Err(e)),
                        Some(Ok((ps, offs, k2))) => {
                            let np = needs_parent_spec(ps);
                            let fu = fusable_spec(ps, ds);
                            let po = parent_ok_spec(ds);
                            if fused_into_interior(ids, interior, np, fu, po) {
                                Some(Err(DecodeError::MalformedAttribute("a walk cut along interior seams cannot carry a fused normal")))
                            } else if parent_missing(ids, np, fu, po) {
                                Some(Err(DecodeError::MalformedAttribute("geometric prediction requires an already decoded position attribute")))
                            } else {
                                Some(Ok((ds, sizes, ps, offs, k1, k1 + k2)))
                            }
                        },
                    }
                }
            }
        },
    }
}

/// The attribute section of an edgebreaker stream, read: everything the
/// group walks need, and the faces where no walk is cut along interior
/// seams.
pub struct TraversedAttributes {
    pub descriptors: Vec<Descriptor>,
    /// How many attributes each decoder carries.
    pub decoder_sizes: Vec<usize>,
    /// Per attribute, its column of the seam bytes.
    pub masks: Vec<u8>,
    /// Per attribute, whether its attribute connectivity has interior seams.
    pub interior: Vec<bool>,
    /// Per attribute, the first attribute sharing its walk.
    pub group_ids: Vec<usize>,
    /// Per group (at its first attribute), how many values its walk visits.
    pub group_num_values: Vec<usize>,
    /// The seam columns of the groups cut along interior seams.
    pub union_mask: u8,
    pub payloads: Vec<Payload>,
    pub transforms: Vec<AttributeTransform>,
    pub plan: WalkPlan,
    /// The faces over the position vertices, where no walk is cut along
    /// interior seams.
    pub faces: Option<Vec<[usize; 3]>>,
}

/// Counts the position vertices some corner references.
fn referenced_vertices(vertex_corners: &Vec<usize>, num_vertices: usize) -> (r: usize)
    requires
        num_vertices <= vertex_corners@.len(),
    ensures
        r == referenced_count(vertex_corners@, num_vertices as int),
{
    let mut count: usize = 0;
    let mut v: usize = 0;
    while v < num_vertices
        invariant
            num_vertices <= vertex_corners@.len(),
            v <= num_vertices,
            count == referenced_count(vertex_corners@, v as int),
            count <= v,
        decreases num_vertices - v,
    {
        if vertex_corners[v] != INVALID {
            count = count + 1;
        }
        v = v + 1;
    }
    count
}

/// The flags the walk plan reads off the payloads and descriptors.
fn plan_flags(payloads: &Vec<Payload>, descriptors: &Vec<Descriptor>) -> (r: (Vec<bool>, Vec<bool>, Vec<bool>))
    requires
        payloads@.len() == descriptors@.len(),
    ensures
        r.0@ == needs_parent_spec(payload_models(payloads@)),
        r.1@ == fusable_spec(payload_models(payloads@), descriptors@),
        r.2@ == parent_ok_spec(descriptors@),
{
    let mut np: Vec<bool> = Vec::new();
    let mut fu: Vec<bool> = Vec::new();
    let mut po: Vec<bool> = Vec::new();
    let mut i: usize = 0;
    while i < payloads.len()
        invariant
            payloads@.len() == descriptors@.len(),
            i <= payloads@.len(),
            np@.len() == i,
            fu@.len() == i,
            po@.len() == i,
            forall|m: int| 0 <= m < i ==> #[trigger] np@[m] == needs_parent_spec(payload_models(payloads@))[m],
            forall|m: int| 0 <= m < i ==> #[trigger] fu@[m] == fusable_spec(payload_models(payloads@), descriptors@)[m],
            forall|m: int| 0 <= m < i ==> #[trigger] po@[m] == parent_ok_spec(descriptors@)[m],
        decreases payloads@.len() - i,
    {
        let scheme = payloads[i].scheme;
        let normal = scheme == PredictionSchemeType::MeshNormalPrediction;
        np.push(normal || scheme == PredictionSchemeType::MeshPredictionForTextureCoordinates);
        fu.push(normal && descriptors[i].portable_num_components() == 2);
        po.push(descriptors[i].is_prediction_parent());
        i = i + 1;
    }
    proof {
        assert(np@ =~= needs_parent_spec(payload_models(payloads@)));
        assert(fu@ =~= fusable_spec(payload_models(payloads@), descriptors@));
        assert(po@ =~= parent_ok_spec(descriptors@));
    }
    (np, fu, po)
}

/// The faces over the position vertices of `conn`.
pub open spec fn position_faces_spec(conn: EdgebreakerConnectivity) -> Seq<[usize; 3]> {
    Seq::new(
        conn.num_faces as nat,
        |f: int| [conn.corner_to_vertex@[3 * f], conn.corner_to_vertex@[3 * f + 1], conn.corner_to_vertex@[3 * f + 2]],
    )
}

/// Whether `t` is the section `traversed_section` describes for `s` and
/// `conn`, with descriptors `ds`, decoder sizes `sizes`, payloads `ps`
/// and portabilization blocks at `offs` after the first `k1` bytes.
pub open spec fn section_matches(
    t: TraversedAttributes,
    s: Seq<u8>,
    conn: EdgebreakerConnectivity,
    ds: Seq<Descriptor>,
    sizes: Seq<nat>,
    ps: Seq<PayloadModel>,
    offs: Seq<nat>,
    k1: nat,
) -> bool {
    let stats = conn.seam_stats@;
    let masks = masks_spec(ds, stats);
    let interior = interior_spec(ds, stats);
    let ids = ids_spec(ds, interior, masks, conn.seam_bits@);
    let referenced = referenced_count(conn.vertex_corners@, conn.num_vertices as int);
    let u = union_mask_of(masks, ids, interior, ds.len() as int);
    &&& t.descriptors@ == ds
    &&& t.decoder_sizes@ == usizes_of(sizes)
    &&& t.masks@ == masks
    &&& t.interior@ == interior
    &&& t.group_ids@ == ids
    &&& t.group_num_values@ == nvs_spec(ds, interior, ids, stats, referenced)
    &&& t.union_mask == u
    &&& payload_models(t.payloads@) == ps
    &&& transforms_match(s.skip(k1 as int), ds, offs, t.transforms@)
    &&& plan_matches(t.plan, ids, interior, needs_parent_spec(ps), fusable_spec(ps, ds), parent_ok_spec(ds))
    &&& if u == 0 {
        t.faces matches Some(f) && f@ == position_faces_spec(conn)
    } else {
        t.faces is None
    }
}

/// The value count of each attribute's group.
fn member_num_values(ids: &Vec<usize>, nvs: &Vec<usize>) -> (r: Vec<usize>)
    requires
        nvs@.len() == ids@.len(),
        forall|i: int| 0 <= i < ids@.len() ==> #[trigger] ids@[i] <= i,
    ensures
        r@ == member_nvs(ids@, nvs@),
{
    let mut out: Vec<usize> = Vec::new();
    let mut i: usize = 0;
    while i < ids.len()
        invariant
            nvs@.len() == ids@.len(),
            forall|m: int| 0 <= m < ids@.len() ==> #[trigger] ids@[m] <= m,
            i <= ids@.len(),
            out@.len() == i,
            forall|m: int| 0 <= m < i ==> #[trigger] out@[m] == nvs@[ids@[m] as int],
        decreases ids@.len() - i,
    {
        out.push(nvs[ids[i]]);
        i = i + 1;
    }
    proof {
        assert(out@ =~= member_nvs(ids@, nvs@));
    }
    out
}

/// Reads the attribute section of an edgebreaker stream over `conn`:
/// descriptors, seam columns, groups and their value counts, every payload
/// and portabilization block, the walk plan, and the faces where no walk
/// is cut along interior seams.
#[verifier::spinoff_prover]
#[verifier::rlimit(80)]
pub fn read_traversed_attributes(reader: &mut Reader<'_>, conn: &EdgebreakerConnectivity) -> (r: Result<
    TraversedAttributes,
    DecodeError,
>)
    requires
        connectivity_wf(*conn),
    ensures
        match traversed_section(old(reader).rest(), *conn) {
            None => r is Err,
            Some(Err(e)) => r == Err::<TraversedAttributes, DecodeError>(e),
            Some(Ok((ds, sizes, ps, offs, k1, k))) => (r matches Ok(t) && section_matches(t, old(reader).rest(), *conn, ds, sizes, ps, offs, k1)
                && k <= old(reader).rest().len() && final(reader).rest() == old(reader).rest().skip(k as int)),
        },
{
    let ghost s = reader.rest();
    let ghost stats = conn.seam_stats@;
    let (descriptors, decoder_sizes) = read_traversed_descriptors(reader)?;
    let ghost (ds, sizes, k1) = traversed_descriptors_parse(s)->Ok_0;
    let ghost s1 = reader.rest();
    proof {
        assert(decoder_sizes@ =~= usizes_of(sizes));
    }
    let (masks, interior) = seam_columns(&descriptors, &conn.seam_stats)?;
    proof {
        assert(masks@ =~= masks_spec(ds, stats));
        assert(interior@ =~= interior_spec(ds, stats));
    }
    check_traversals(&descriptors, &interior)?;
    let ids = group_ids(&descriptors, &interior, &masks, &conn.seam_bits);
    proof {
        assert(ids@ =~= ids_spec(ds, interior@, masks@, conn.seam_bits@));
        assert forall|i: int| 0 <= i < ids@.len() implies #[trigger] ids@[i] <= i by {
            lemma_group_of(ds, interior@, masks@, conn.seam_bits@, i, i);
        }
        assert forall|i: int| 0 <= i < ds.len() && #[trigger] interior@[i] implies ds[i].att_data_id < stats.len() by {
            assert(seam_column(ds[i], stats) is Ok);
        }
    }
    let referenced = referenced_vertices(&conn.vertex_corners, conn.num_vertices);
    let nvs = group_num_values(&descriptors, &interior, &ids, &conn.seam_stats, referenced)?;
    proof {
        assert(nvs@ =~= nvs_spec(ds, interior@, ids@, stats, referenced as nat));
    }
    let u = union_mask(&masks, &ids, &interior);
    let att_nvs = member_num_values(&ids, &nvs);
    let (payloads, transforms) = parse_traversed_payloads(reader, &descriptors, &decoder_sizes, &att_nvs)?;
    let ghost (ps, offs, k2) = decoders_parse(s1, att_nvs@, ds, decoder_sizes@)->Some_0->Ok_0;
    let (np, fu, po) = plan_flags(&payloads, &descriptors);
    let plan = plan_walks(&ids, &interior, &np, &fu, &po)?;
    let faces = if u == 0 {
        Some(position_faces(&conn.corner_to_vertex, conn.num_faces))
    } else {
        None
    };
    let t = TraversedAttributes {
        descriptors,
        decoder_sizes,
        masks,
        interior,
        group_ids: ids,
        group_num_values: nvs,
        union_mask: u,
        payloads,
        transforms,
        plan,
        faces,
    };
    proof {
        assert(s1 =~= s.skip(k1 as int));
        assert(reader.rest() =~= s.skip((k1 + k2) as int));
        if u == 0 {
            assert(t.faces->0@ =~= position_faces_spec(*conn));
        }
    }
    Ok(t)
}

} // verus!
