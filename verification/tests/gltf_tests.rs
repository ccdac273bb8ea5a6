use draco_oxide_decoder::io::draco_extension::{
    accessor_type_from_dim, align_to_4, buffer_view_remap, is_triangle_mode, primitive_mode_name,
    DracoAttributeIds,
};
use draco_oxide_decoder::io::gltf::{parse_glb, write_glb, Error};

#[test]
fn test_roundtrip() {
    let json = br#"{"asset":{"version":"2.0"}}"#;
    let buffer = b"hello world binary data";

    let mut glb = Vec::new();
    write_glb(&mut glb, json, buffer).unwrap();

    let parsed = parse_glb(&glb).unwrap();
    assert_eq!(parsed.json, json);
    assert!(parsed.buffer.starts_with(buffer));
}

#[test]
fn test_empty_buffer() {
    let json = br#"{"asset":{"version":"2.0"}}"#;

    let mut glb = Vec::new();
    write_glb(&mut glb, json, &[]).unwrap();

    let parsed = parse_glb(&glb).unwrap();
    assert_eq!(parsed.json, json);
    assert!(parsed.buffer.is_empty());
}

#[test]
fn glb_layout_is_padded_to_words() {
    let mut glb = Vec::new();
    write_glb(&mut glb, b"{}", b"abcde").unwrap();
    // 12 header + 8 + 4 (json padded) + 8 + 8 (buffer padded).
    assert_eq!(glb.len(), 40);
    assert_eq!(&glb[0..4], b"glTF");
    assert_eq!(&glb[8..12], &[40, 0, 0, 0]);
    assert_eq!(&glb[20..24], b"{}  ");
    assert_eq!(&glb[36..40], &[b'e', 0, 0, 0]);
}

#[test]
fn glb_errors() {
    assert_eq!(parse_glb(&[0u8; 10]).unwrap_err(), Error::FileTooShort { expected: 20, actual: 10 });
    let mut bad = Vec::new();
    write_glb(&mut bad, b"{}", &[]).unwrap();
    bad[0] = b'x';
    assert_eq!(parse_glb(&bad).unwrap_err(), Error::InvalidMagic);
    let mut v3 = Vec::new();
    write_glb(&mut v3, b"{}", &[]).unwrap();
    v3[4] = 3;
    assert_eq!(parse_glb(&v3).unwrap_err(), Error::UnsupportedVersion(3));
    let mut short = Vec::new();
    write_glb(&mut short, b"{}", &[]).unwrap();
    short[8] = 200;
    assert_eq!(parse_glb(&short).unwrap_err(), Error::FileTooShort { expected: 200, actual: 24 });
    let mut no_json = Vec::new();
    write_glb(&mut no_json, b"{}", &[]).unwrap();
    no_json[16] = b'X';
    assert_eq!(parse_glb(&no_json).unwrap_err(), Error::MissingJsonChunk);
}

#[test]
fn test_is_triangle_primitive() {
    assert!(is_triangle_mode(None));
    assert!(is_triangle_mode(Some(4)));
    assert!(!is_triangle_mode(Some(0)));
}

#[test]
fn mode_and_accessor_names() {
    assert_eq!(primitive_mode_name(4), "TRIANGLES");
    assert_eq!(primitive_mode_name(0), "POINTS");
    assert_eq!(primitive_mode_name(9), "UNKNOWN");
    assert_eq!(accessor_type_from_dim(3), "VEC3");
    assert_eq!(accessor_type_from_dim(1), "SCALAR");
    assert_eq!(accessor_type_from_dim(7), "SCALAR");
}

#[test]
fn attribute_ids_replace_by_name() {
    let mut ids = DracoAttributeIds::new();
    ids.insert("POSITION", 0);
    ids.insert("NORMAL", 1);
    ids.insert("POSITION", 2);
    assert_eq!(ids.ids().len(), 2);
    assert_eq!(ids.ids()[0], ("POSITION".to_string(), 2));
    assert_eq!(ids.ids()[1], ("NORMAL".to_string(), 1));
}

#[test]
fn buffer_views_are_renumbered() {
    let remap = buffer_view_remap(&[false, true, false, true, false]);
    assert_eq!(remap, vec![Some(0), None, Some(1), None, Some(2)]);
}

#[test]
fn buffers_are_aligned_with_zeros() {
    let mut buf = vec![1u8, 2, 3, 4, 5];
    align_to_4(&mut buf);
    assert_eq!(buf, vec![1, 2, 3, 4, 5, 0, 0, 0]);
    let mut aligned = vec![1u8; 8];
    align_to_4(&mut aligned);
    assert_eq!(aligned.len(), 8);
}
