use draco_oxide_decoder::attribute::AttributeDomain;
use draco_oxide_decoder::decoder::{decode_mesh_portable, Decoder};
use draco_oxide_decoder::error::{DecodeError, ReaderErr};
use draco_oxide_decoder::point_cloud::{AttributeKind, AttributeTransform, ComponentType};

fn zigzag(v: i32) -> u32 {
    if v >= 0 {
        (v as u32) << 1
    } else {
        ((-(v as i64)) as u32) * 2 - 1
    }
}

/// A bitstream 2.2 mesh header with the given encoder method and flags.
fn mesh_header(method: u8, flags: u16) -> Vec<u8> {
    let mut bytes = b"DRACO".to_vec();
    bytes.extend([2u8, 2, 1, method]);
    bytes.extend(flags.to_le_bytes());
    bytes
}

/// One triangle over three points, indices written as bytes.
fn sequential_triangle() -> Vec<u8> {
    vec![1u8, 3, 1, 0, 1, 2]
}

/// A sequential attribute section: one encoder, one three-component i32
/// position attribute (uid 7) with delta prediction over three values.
fn position_section() -> Vec<u8> {
    let mut bytes = vec![1u8, 1, 0, 5, 3, 0, 7, 1];
    bytes.extend([0u8, 0, 0]);
    for v in [2i32, 4, 6, 1, -1, 0, -3, 0, 5] {
        bytes.extend((zigzag(v) as i32).to_le_bytes());
    }
    bytes
}

/// A single-triangle standard-traversal edgebreaker connectivity with no
/// attribute data.
fn edgebreaker_triangle() -> Vec<u8> {
    let mut bytes = vec![0u8, 3, 1, 0, 1, 0, 0, 1, 0b111];
    bytes.extend([255u8, 1, 5]);
    bytes
}

#[test]
fn sequential_mesh_decodes_faces_and_attributes() {
    let mut bytes = mesh_header(0, 0);
    bytes.extend(sequential_triangle());
    bytes.extend(position_section());
    let m = decode_mesh_portable(&bytes).unwrap();
    assert_eq!(m.mesh.faces, vec![[0, 1, 2]]);
    assert_eq!(m.mesh.attributes.len(), 1);
    let att = &m.mesh.attributes[0];
    assert_eq!(att.uid, 7);
    assert_eq!(att.att_type, AttributeKind::Position);
    assert_eq!(att.domain, AttributeDomain::Position);
    assert_eq!(att.num_components, 3);
    assert_eq!(att.values, vec![2, 4, 6, 3, 3, 6, 0, 3, 11]);
    assert_eq!(m.transforms.len(), 1);
    assert!(matches!(
        m.transforms[0],
        AttributeTransform::Integer { component_type: ComponentType::I32 }
    ));
}

#[test]
fn mesh_metadata_is_skipped() {
    let mut bytes = mesh_header(0, 0x8000);
    bytes.extend([0u8, 0, 0]);
    bytes.extend(sequential_triangle());
    bytes.extend(position_section());
    let m = Decoder::new().decode_mesh_portable(&bytes).unwrap();
    assert_eq!(m.mesh.faces, vec![[0, 1, 2]]);
    assert_eq!(m.mesh.attributes[0].values, vec![2, 4, 6, 3, 3, 6, 0, 3, 11]);
}

#[test]
fn edgebreaker_mesh_without_attributes_gives_its_faces() {
    let mut bytes = mesh_header(1, 0);
    bytes.extend(edgebreaker_triangle());
    bytes.push(0);
    let m = decode_mesh_portable(&bytes).unwrap();
    assert_eq!(m.mesh.faces, vec![[0, 1, 2]]);
    assert!(m.mesh.attributes.is_empty());
    assert!(m.transforms.is_empty());
}

#[test]
fn edgebreaker_mesh_attribute_section_errors_come_through() {
    let mut bytes = mesh_header(1, 0);
    bytes.extend(edgebreaker_triangle());
    assert!(matches!(
        decode_mesh_portable(&bytes),
        Err(DecodeError::Reader(ReaderErr::NotEnoughData))
    ));
}

#[test]
fn mesh_header_errors() {
    assert!(matches!(
        decode_mesh_portable(b"DRACX\x02\x02\x01\x00\x00\x00"),
        Err(DecodeError::InvalidHeader("missing DRACO magic"))
    ));
    let mut pc = mesh_header(0, 0);
    pc[7] = 0;
    assert!(matches!(decode_mesh_portable(&pc), Err(DecodeError::UnsupportedPointCloud)));
    let mut old = mesh_header(0, 0);
    old[6] = 1;
    assert!(matches!(decode_mesh_portable(&old), Err(DecodeError::UnsupportedVersion(2, 1))));
    assert!(matches!(
        decode_mesh_portable(&mesh_header(0, 0)[..9]),
        Err(DecodeError::Reader(ReaderErr::NotEnoughData))
    ));
}

#[test]
fn sequential_mesh_section_errors_come_through() {
    let mut bytes = mesh_header(0, 0);
    bytes.extend(sequential_triangle());
    let mut section = position_section();
    section[0] = 2;
    bytes.extend(section);
    assert!(matches!(
        decode_mesh_portable(&bytes),
        Err(DecodeError::MalformedAttribute("a sequential stream carries all attributes in one encoder"))
    ));
}

#[test]
fn edgebreaker_mesh_values_are_not_walked() {
    let mut bytes = mesh_header(1, 0);
    bytes.extend(edgebreaker_triangle());
    bytes.extend([1u8, 0xFF, 0, 0, 1, 0, 5, 3, 0, 4, 1]);
    bytes.extend([0u8, 0, 0]);
    for v in 0..9i32 {
        bytes.extend_from_slice(&v.to_le_bytes());
    }
    assert!(matches!(decode_mesh_portable(&bytes), Err(DecodeError::Unimplemented)));
}
