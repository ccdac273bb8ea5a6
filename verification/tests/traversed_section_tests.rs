use draco_oxide_decoder::attribute::section::read_traversed_attributes;
use draco_oxide_decoder::attribute::traversed::{
    check_traversals, group_ids, group_num_values, position_faces, read_traversed_descriptors,
    seam_columns, union_mask,
};
use draco_oxide_decoder::attribute::walks::plan_walks;
use draco_oxide_decoder::attribute::{AttributeDomain, Descriptor, NO_ATTRIBUTE_DATA};
use draco_oxide_decoder::connectivity::edgebreaker::traversal::SeamStats;
use draco_oxide_decoder::connectivity::edgebreaker::EdgebreakerConnectivity;
use draco_oxide_decoder::decode::attribute::TraversalType;
use draco_oxide_decoder::error::{DecodeError, ReaderErr};
use draco_oxide_decoder::point_cloud::{AttributeKind, AttributeTransform, ComponentType};
use draco_oxide_decoder::reader::Reader;

fn desc(att_data_id: u8, domain: AttributeDomain, traversal: TraversalType) -> Descriptor {
    Descriptor {
        att_data_id,
        att_type: AttributeKind::Generic,
        component_type: ComponentType::I32,
        num_components: 1,
        uid: 0,
        port_type: 1,
        domain,
        traversal,
    }
}

#[test]
fn traversed_descriptors_follow_their_decoders() {
    let bytes = [
        2u8, 0xFF, 0, 0, 0, 1, 1, // two headers
        2, 0, 5, 3, 0, 0, 1, 9, 3, 0, 1, 2, 3, // first decoder: two attributes, then their ports
        1, 3, 2, 2, 0, 2, 0, // second decoder: one texture coordinate
    ];
    let mut reader = Reader::new(&bytes);
    let (ds, sizes) = read_traversed_descriptors(&mut reader).unwrap();
    assert_eq!(sizes, vec![2, 1]);
    assert_eq!(ds.len(), 3);
    assert_eq!(ds[0].att_data_id, NO_ATTRIBUTE_DATA);
    assert_eq!(ds[0].att_type, AttributeKind::Position);
    assert_eq!(ds[0].port_type, 2);
    assert_eq!(ds[1].att_type, AttributeKind::Normal);
    assert_eq!(ds[1].component_type, ComponentType::F32);
    assert_eq!(ds[1].uid, 1);
    assert_eq!(ds[1].port_type, 3);
    assert_eq!(ds[2].att_data_id, 0);
    assert_eq!(ds[2].domain, AttributeDomain::Corner);
    assert_eq!(ds[2].traversal, TraversalType::PredictionDegree);
    assert_eq!(ds[2].uid, 2);
    assert_eq!(ds[2].port_type, 0);
    assert_eq!(reader.remaining(), 0);
}

#[test]
fn traversed_descriptor_errors() {
    let mut reader = Reader::new(&[1u8, 0xFF, 0, 5]);
    assert_eq!(
        read_traversed_descriptors(&mut reader),
        Err(DecodeError::MalformedAttribute("unknown traversal method"))
    );
    let mut reader = Reader::new(&[1u8, 0xFF, 4, 0]);
    assert_eq!(
        read_traversed_descriptors(&mut reader),
        Err(DecodeError::MalformedAttribute("unknown attribute domain"))
    );
    let mut reader = Reader::new(&[1u8, 0xFF, 0, 0, 0]);
    assert_eq!(
        read_traversed_descriptors(&mut reader),
        Err(DecodeError::MalformedAttribute("an attribute decoder must carry at least one attribute"))
    );
    let mut reader = Reader::new(&[1u8, 0xFF, 0, 0, 1, 0, 7, 3, 0, 0, 1]);
    assert_eq!(read_traversed_descriptors(&mut reader), Err(DecodeError::Unimplemented));
    let mut reader = Reader::new(&[1u8, 0xFF, 0, 0, 1, 0, 5, 3, 0, 0]);
    assert_eq!(
        read_traversed_descriptors(&mut reader),
        Err(DecodeError::Reader(ReaderErr::NotEnoughData))
    );
}

#[test]
fn seam_columns_and_traversal_check() {
    let stats = vec![SeamStats { has_interior: true, starts: 4, fans_with_starts: 2 }];
    let ds = vec![
        desc(NO_ATTRIBUTE_DATA, AttributeDomain::Position, TraversalType::DepthFirst),
        desc(0, AttributeDomain::Corner, TraversalType::DepthFirst),
        desc(0, AttributeDomain::Position, TraversalType::PredictionDegree),
    ];
    let (masks, interior) = seam_columns(&ds, &stats).unwrap();
    assert_eq!(masks, vec![0, 1, 0]);
    assert_eq!(interior, vec![false, true, false]);
    assert_eq!(check_traversals(&ds, &interior), Ok(()));

    let bad = vec![desc(3, AttributeDomain::Corner, TraversalType::DepthFirst)];
    assert_eq!(
        seam_columns(&bad, &stats),
        Err(DecodeError::MalformedAttribute("attribute names a seam stream the connectivity did not encode"))
    );
    let pd = vec![desc(0, AttributeDomain::Corner, TraversalType::PredictionDegree)];
    assert_eq!(
        check_traversals(&pd, &vec![true]),
        Err(DecodeError::MalformedAttribute("prediction-degree traversal on an attribute with interior seams"))
    );
}

#[test]
fn groups_share_traversals_and_seams() {
    let ds = vec![
        desc(NO_ATTRIBUTE_DATA, AttributeDomain::Position, TraversalType::DepthFirst),
        desc(NO_ATTRIBUTE_DATA, AttributeDomain::Position, TraversalType::PredictionDegree),
        desc(0, AttributeDomain::Corner, TraversalType::DepthFirst),
        desc(NO_ATTRIBUTE_DATA, AttributeDomain::Position, TraversalType::DepthFirst),
        desc(1, AttributeDomain::Corner, TraversalType::DepthFirst),
        desc(2, AttributeDomain::Corner, TraversalType::DepthFirst),
    ];
    let interior = vec![false, false, true, false, true, true];
    let masks = vec![0u8, 0, 1, 0, 2, 4];
    // Streams 0 and 1 cut the same edges; stream 2 cuts another.
    let seam_bits = vec![0b011u8, 0b000, 0b100, 0b111];
    let ids = group_ids(&ds, &interior, &masks, &seam_bits);
    assert_eq!(ids, vec![0, 1, 2, 0, 2, 5]);

    let stats = vec![
        SeamStats { has_interior: true, starts: 4, fans_with_starts: 2 },
        SeamStats { has_interior: true, starts: 4, fans_with_starts: 2 },
        SeamStats { has_interior: true, starts: 1, fans_with_starts: 1 },
    ];
    assert_eq!(group_num_values(&ds, &interior, &ids, &stats, 10), Ok(vec![10, 10, 12, 0, 0, 10]));
    assert_eq!(union_mask(&masks, &ids, &interior), 5);

    let broken = vec![SeamStats { has_interior: true, starts: 1, fans_with_starts: 20 }; 3];
    assert_eq!(
        group_num_values(&ds, &interior, &ids, &broken, 10),
        Err(DecodeError::MalformedAttribute("seam statistics out of range"))
    );
}

#[test]
fn position_faces_read_corner_triples() {
    assert_eq!(position_faces(&vec![0, 1, 2, 2, 1, 3], 2), vec![[0, 1, 2], [2, 1, 3]]);
}

#[test]
fn walk_plan_fuses_normals_and_defers_texture_coordinates() {
    let ids = vec![0, 0, 0];
    let interior = vec![false, false, false];
    let needs_parent = vec![false, true, true];
    let fusable = vec![false, true, false];
    let parent_ok = vec![true, false, false];
    let plan = plan_walks(&ids, &interior, &needs_parent, &fusable, &parent_ok).unwrap();
    assert_eq!(plan.wave, vec![0, 0, 1]);
    assert_eq!(plan.fused_with, vec![None, Some(0), None]);
    assert_eq!(plan.parent, vec![None, None, Some(0)]);
    assert_eq!(plan.record_walk, vec![true, false, false]);
    assert_eq!(plan.assembly_rep, None);

    let lonely = plan_walks(&vec![0], &vec![false], &vec![true], &vec![false], &vec![false]);
    assert!(matches!(
        lonely,
        Err(DecodeError::MalformedAttribute("geometric prediction requires an already decoded position attribute"))
    ));

    let cut = plan_walks(&vec![0, 0], &vec![true, true], &vec![false, true], &vec![false, true], &vec![true, false]);
    assert!(matches!(
        cut,
        Err(DecodeError::MalformedAttribute("a walk cut along interior seams cannot carry a fused normal"))
    ));

    let two_groups = plan_walks(&vec![0, 1, 1], &vec![false, true, true], &vec![false, false, false], &vec![false; 3], &vec![false; 3]).unwrap();
    assert_eq!(two_groups.wave, vec![0, 0, 0]);
    assert_eq!(two_groups.assembly_rep, Some(1));
}

fn triangle() -> EdgebreakerConnectivity {
    EdgebreakerConnectivity {
        opposite: vec![usize::MAX; 3],
        corner_to_vertex: vec![0, 1, 2],
        vertex_corners: vec![0, 1, 2],
        num_vertices: 3,
        num_faces: 1,
        num_attribute_data: 0,
        is_vert_hole: vec![true; 3],
        init_corners: vec![0],
        seam_bits: vec![0, 0, 0],
        seam_stats: vec![],
    }
}

#[test]
fn traversed_section_reads_payloads_and_plans_walks() {
    let mut bytes = vec![1u8, 0xFF, 0, 0, 1, 0, 5, 3, 0, 4, 1];
    bytes.extend([0u8, 0, 0]);
    for v in 0..9i32 {
        bytes.extend_from_slice(&v.to_le_bytes());
    }
    bytes.push(42);
    let conn = triangle();
    let mut reader = Reader::new(&bytes);
    let t = read_traversed_attributes(&mut reader, &conn).unwrap();
    assert_eq!(t.descriptors.len(), 1);
    assert_eq!(t.descriptors[0].uid, 4);
    assert_eq!(t.decoder_sizes, vec![1]);
    assert_eq!(t.group_ids, vec![0]);
    assert_eq!(t.group_num_values, vec![3]);
    assert_eq!(t.union_mask, 0);
    assert_eq!(t.payloads[0].corrections, (0..9).collect::<Vec<i32>>());
    assert!(matches!(
        t.transforms[0],
        AttributeTransform::Integer { component_type: ComponentType::I32 }
    ));
    assert_eq!(t.plan.wave, vec![0]);
    assert_eq!(t.faces, Some(vec![[0, 1, 2]]));
    assert_eq!(reader.remaining(), 1);
}
