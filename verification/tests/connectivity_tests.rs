use draco_oxide_decoder::error::DecodeError;
use draco_oxide_decoder::connectivity::edgebreaker::decode as decode_edgebreaker;
use draco_oxide_decoder::connectivity::edgebreaker::traversal::{decode_topology_splits, BitSource};
use draco_oxide_decoder::connectivity::sequential::decode as decode_sequential;
use draco_oxide_decoder::reader::Reader;

#[test]
fn sequential_direct_indices_in_bytes() {
    // 2 faces, 4 points, direct method, u8 indices.
    let bytes = [2u8, 4, 1, 0, 1, 2, 2, 1, 3, 0xEE];
    let mut reader = Reader::new(&bytes);
    let conn = decode_sequential(&mut reader).unwrap();
    assert_eq!(conn.num_points, 4);
    assert_eq!(conn.faces, vec![[0, 1, 2], [2, 1, 3]]);
    assert_eq!(reader.read_u8().unwrap(), 0xEE);
}

#[test]
fn sequential_direct_indices_in_words() {
    // 1 face, 300 points: u16 indices.
    let bytes = [1u8, 0xAC, 0x02, 1, 0x2B, 0x01, 0, 0, 1, 0];
    let mut reader = Reader::new(&bytes);
    let conn = decode_sequential(&mut reader).unwrap();
    assert_eq!(conn.num_points, 300);
    assert_eq!(conn.faces, vec![[299, 0, 1]]);
}

#[test]
fn sequential_rejects_unknown_method_and_oversized_counts() {
    let mut reader = Reader::new(&[1u8, 3, 7, 0, 1, 2]);
    assert!(decode_sequential(&mut reader).is_err());
    // Ten faces cannot fit in the four bytes that follow.
    let mut reader = Reader::new(&[10u8, 3, 1, 0, 1, 2]);
    assert!(decode_sequential(&mut reader).is_err());
}

#[test]
fn bit_source_reads_lsb_first() {
    let data = [0b1011_0101u8, 0b0000_0001];
    let mut bits = BitSource::new(&data);
    assert_eq!(bits.read_bit(), 1);
    assert_eq!(bits.read_bit(), 0);
    assert_eq!(bits.read_bits(3), 0b101);
    assert!(bits.has_bits(8));
    assert_eq!(bits.read_bits(4), 0b1101);
}

#[test]
fn topology_splits_decode_deltas_and_edge_bits() {
    // Two splits: sources 3 and 3 + 2 = 5, splits 3 - 1 = 2 and 5 - 5 = 0;
    // edge bits 1 then 0.
    let bytes = [2u8, 3, 1, 2, 5, 0b01, 0xEE];
    let mut reader = Reader::new(&bytes);
    let splits = decode_topology_splits(&mut reader).unwrap();
    assert_eq!(splits.len(), 2);
    assert_eq!((splits[0].source_symbol_id, splits[0].split_symbol_id, splits[0].source_edge_right), (3, 2, true));
    assert_eq!((splits[1].source_symbol_id, splits[1].split_symbol_id, splits[1].source_edge_right), (5, 0, false));
    assert_eq!(reader.read_u8().unwrap(), 0xEE);
}

#[test]
fn topology_split_delta_past_source_is_rejected() {
    let bytes = [1u8, 3, 4, 0];
    let mut reader = Reader::new(&bytes);
    assert!(decode_topology_splits(&mut reader).is_err());
}

/// A single-triangle standard-traversal stream: one `E` symbol, no splits,
/// no attribute data, and a boundary start face.
fn single_triangle() -> Vec<u8> {
    let mut bytes = vec![
        0u8, // standard traversal
        3,   // encoded vertices
        1,   // faces
        0,   // attribute data
        1,   // symbols
        0,   // split symbols
        0,   // topology splits
        1,   // symbol bytes
        0b111, // E: 1 then 11
    ];
    // Start-face rabs stream: zero-probability 255/256, length 1, a state
    // that decodes to a zero bit.
    bytes.extend([255u8, 1, 5]);
    bytes
}

#[test]
fn edgebreaker_single_triangle() {
    let bytes = single_triangle();
    let mut reader = Reader::new(&bytes);
    let conn = decode_edgebreaker(&mut reader).unwrap();
    assert_eq!(conn.num_faces, 1);
    assert_eq!(conn.corner_to_vertex, vec![0, 1, 2]);
    assert_eq!(conn.opposite, vec![usize::MAX; 3]);
    assert_eq!(conn.num_vertices, 3);
    assert_eq!(conn.init_corners, vec![0]);
    assert!(conn.seam_stats.is_empty());
}

#[test]
fn edgebreaker_rejects_more_symbols_than_faces() {
    let mut bytes = single_triangle();
    bytes[4] = 2;
    let mut reader = Reader::new(&bytes);
    assert!(decode_edgebreaker(&mut reader).is_err());
}

#[test]
fn symbol_past_the_last_face_gives_its_error() {
    // Two symbols over one face: `E`, then a `C` whose checks pass, so the
    // face it would build lies past the last one.
    let mut bytes = single_triangle();
    bytes[4] = 2;
    let mut reader = Reader::new(&bytes);
    assert_eq!(
        decode_edgebreaker(&mut reader).err(),
        Some(DecodeError::MalformedConnectivity("more symbols than faces"))
    );
    // `E`, then an `S` with only one active corner: the stream's own error.
    bytes[8] = 0b0000_1111;
    let mut reader = Reader::new(&bytes);
    assert_eq!(
        decode_edgebreaker(&mut reader).err(),
        Some(DecodeError::MalformedConnectivity("invalid edgebreaker symbol stream"))
    );
}

#[test]
fn edgebreaker_rejects_unknown_traversal() {
    let mut bytes = single_triangle();
    bytes[0] = 1;
    let mut reader = Reader::new(&bytes);
    assert!(decode_edgebreaker(&mut reader).is_err());
}

#[test]
fn topology_split_stream_decodes_one_split() {
    let bytes = [1u8, 3, 1, 0x01, 0xEE];
    let mut reader = Reader::new(&bytes);
    let v = decode_topology_splits(&mut reader).unwrap();
    assert_eq!(v.len(), 1);
    assert_eq!(v[0].source_symbol_id, 3);
    assert_eq!(v[0].split_symbol_id, 2);
    assert!(v[0].source_edge_right);
    assert_eq!(reader.read_u8().unwrap(), 0xEE);
}

#[test]
fn topology_split_delta_past_its_source_is_refused() {
    let bytes = [1u8, 0, 1];
    let mut reader = Reader::new(&bytes);
    assert!(matches!(
        decode_topology_splits(&mut reader),
        Err(draco_oxide_decoder::error::DecodeError::MalformedConnectivity("split id delta out of range"))
    ));
}

#[test]
fn position_faces_renumber_by_first_appearance() {
    let bytes = single_triangle();
    let mut reader = Reader::new(&bytes);
    let mut conn = decode_edgebreaker(&mut reader).unwrap();
    // Vertex ids 7, 4, 7 / 4, 9, 2 become 0, 1, 0 / 1, 2, 3.
    conn.num_faces = 2;
    conn.corner_to_vertex = vec![7, 4, 7, 4, 9, 2];
    let (faces, count) = conn.position_faces();
    assert_eq!(faces, vec![[0, 1, 0], [1, 2, 3]]);
    assert_eq!(count, 4);
}

#[test]
fn edgebreaker_symbol_stream_running_out_is_refused() {
    // Three symbols over three faces: the symbol byte holds `E`, `E`, and
    // then a set bit with one bit left where its suffix needs two.
    let mut bytes = vec![0u8, 9, 3, 0, 3, 0, 0, 1, 0b1111_1111];
    bytes.extend([255u8, 1, 5]);
    let mut reader = Reader::new(&bytes);
    assert_eq!(
        decode_edgebreaker(&mut reader).err(),
        Some(DecodeError::MalformedConnectivity("symbol stream ran out"))
    );
}
